//! Log arrays.
//!
//! A log array is a run of unsigned integers of one width, between 1 and 64
//! bits, packed bit against bit with the most significant bit first.  In a
//! file the packed bits are filled up with zeros to whole words of 64 bits;
//! eight bytes follow, which hold the number of entries in 56 bits and the
//! width in 8, most significant byte first.

use crate::endian::{
    be_bytes, be_value, lemma_be_value_of_bytes, read_u32_be, write_u32_be,
};
use crate::structure::bitarray::{
    bit_at, bits_of, body_len, get_bit, holds_bits, lemma_holds_bits_extend, BitArrayBuilder,
};
use vstd::arithmetic::power2::{lemma2_to64, lemma2_to64_rest, lemma_pow2_unfold, pow2};
use vstd::prelude::*;
use vstd::slice::slice_subrange;

verus! {

/// The number that the `width` bits of `bits` from `start` on write, most
/// significant first.
pub open spec fn bits_value(bits: Seq<bool>, start: int, width: nat) -> nat
    recommends
        0 <= start,
        start + width <= bits.len(),
    decreases width,
{
    if width == 0 {
        0
    } else {
        2 * bits_value(bits, start, (width - 1) as nat) + (if bits[start + width - 1] {
            1nat
        } else {
            0nat
        })
    }
}

/// The entries of width `width` that `bits` hold, `len` of them.
pub open spec fn log_entries(bits: Seq<bool>, width: nat, len: nat) -> Seq<u64>
    recommends
        len * width <= bits.len(),
{
    Seq::new(len, |i: int| bits_value(bits, i * width, width) as u64)
}

/// `v` has no bit set above its lowest `width`.
pub open spec fn fits(v: u64, width: nat) -> bool {
    width >= 64 || v >> (width as u64) == 0
}

/// The most entries a log array can declare: its count takes 56 bits.
pub const MAX_ENTRIES: u64 = 0xff_ffff_ffff_ffff;

/// The last eight bytes of the file of `count` entries of width `width`.
pub open spec fn log_trailer(count: nat, width: nat) -> Seq<u8>
    recommends
        count <= MAX_ENTRIES,
        width < 256,
{
    be_bytes(((count * 256 + width) / 0x1_0000_0000) as u32) + be_bytes(
        ((count * 256 + width) % 0x1_0000_0000) as u32,
    )
}

/// The number that the last eight bytes of `file` write, most significant
/// byte first.
pub open spec fn trailer_value(file: Seq<u8>) -> nat
    recommends
        file.len() >= 8,
{
    (be_value(file.subrange(file.len() - 8, file.len() - 4)) as nat) * 0x1_0000_0000 + be_value(
        file.subrange(file.len() - 4, file.len() as int),
    ) as nat
}

/// `file` is the file of the log array of width `width` with the entries
/// `values`.
pub open spec fn is_log_array_file(file: Seq<u8>, width: nat, values: Seq<u64>) -> bool {
    &&& 1 <= width <= 64
    &&& values.len() <= MAX_ENTRIES
    &&& file.len() == body_len(values.len() * width) + 8
    &&& file.subrange(file.len() - 8, file.len() as int) == log_trailer(values.len(), width)
    &&& exists|bits: Seq<bool>|
        {
            &&& bits.len() == values.len() * width
            &&& #[trigger] holds_bits(file, bits)
            &&& log_entries(bits, width, values.len()) == values
        }
}

/// What the file `file` declares: the width and the number of its entries,
/// if the width is between 1 and 64 and the file is as long as a file of
/// that many entries is.
pub open spec fn declared_entries(file: Seq<u8>) -> Option<(nat, nat)> {
    if file.len() < 8 {
        None
    } else {
        let width = trailer_value(file) % 256;
        let count = trailer_value(file) / 256;
        if 1 <= width <= 64 && file.len() == body_len(count * width) + 8 {
            Some((width, count))
        } else {
            None
        }
    }
}

/// The bits of the body of the file `file`.
pub open spec fn file_bits(file: Seq<u8>) -> Seq<bool>
    recommends
        file.len() >= 8,
{
    bits_of(file, (8 * (file.len() - 8)) as nat)
}

/// Bits that agree from `start` on for `width` places write the same
/// number.
pub proof fn lemma_bits_value_agree(a: Seq<bool>, b: Seq<bool>, start: int, width: nat)
    requires
        forall|k: int| start <= k < start + width ==> a[k] == b[k],
    ensures
        bits_value(a, start, width) == bits_value(b, start, width),
    decreases width,
{
    if width > 0 {
        lemma_bits_value_agree(a, b, start, (width - 1) as nat);
    }
}

/// `width` bits write a number below two to the `width`.
pub proof fn lemma_bits_value_bound(bits: Seq<bool>, start: int, width: nat)
    ensures
        bits_value(bits, start, width) < pow2(width),
    decreases width,
{
    if width > 0 {
        lemma_bits_value_bound(bits, start, (width - 1) as nat);
        lemma_pow2_unfold(width);
    } else {
        lemma2_to64();
    }
}

/// Up to 64 bits write a number that fits 64 bits, and up to 63 one that can
/// be doubled within 64 bits.
pub proof fn lemma_bits_value_fits(bits: Seq<bool>, start: int, width: nat)
    ensures
        width <= 64 ==> bits_value(bits, start, width) <= u64::MAX,
        width <= 63 ==> bits_value(bits, start, width) < 0x8000_0000_0000_0000,
{
    lemma_bits_value_bound(bits, start, width);
    lemma2_to64();
    lemma2_to64_rest();
    if width < 63 {
        vstd::arithmetic::power2::lemma_pow2_strictly_increases(width, 63);
    }
    if width < 64 {
        vstd::arithmetic::power2::lemma_pow2_strictly_increases(width, 64);
    }
}

/// A number of 64 bits is its upper half times two to the 32 and its lower
/// half; made of a count and a width, it gives both back.
pub proof fn lemma_trailer_parts(count: nat, width: nat)
    requires
        count <= MAX_ENTRIES,
        width < 256,
    ensures
        count * 256 + width <= u64::MAX,
        ((count * 256 + width) / 0x1_0000_0000) * 0x1_0000_0000 + (count * 256 + width)
            % 0x1_0000_0000 == count * 256 + width,
        (count * 256 + width) / 0x1_0000_0000 <= u32::MAX,
        (count * 256 + width) % 256 == width,
        (count * 256 + width) / 256 == count,
{
}

/// The trailer of a file is read back as the count and the width that were
/// written.
pub proof fn lemma_trailer_round_trip(file: Seq<u8>, count: nat, width: nat)
    requires
        count <= MAX_ENTRIES,
        width < 256,
        file.len() >= 8,
        file.subrange(file.len() - 8, file.len() as int) == log_trailer(count, width),
    ensures
        trailer_value(file) == count * 256 + width,
        trailer_value(file) % 256 == width,
        trailer_value(file) / 256 == count,
{
    let v = count * 256 + width;
    lemma_trailer_parts(count, width);
    let high = (v / 0x1_0000_0000) as u32;
    let low = (v % 0x1_0000_0000) as u32;
    lemma_be_value_of_bytes(high);
    lemma_be_value_of_bytes(low);
    let trailer = file.subrange(file.len() - 8, file.len() as int);
    let first = file.subrange(file.len() - 8, file.len() - 4);
    let second = file.subrange(file.len() - 4, file.len() as int);
    assert(first =~= be_bytes(high)) by {
        assert(first =~= trailer.subrange(0, 4));
        assert(trailer.subrange(0, 4) =~= be_bytes(high));
    }
    assert(second =~= be_bytes(low)) by {
        assert(second =~= trailer.subrange(4, 8));
        assert(trailer.subrange(4, 8) =~= be_bytes(low));
    }
    assert(be_value(first) == high);
    assert(be_value(second) == low);
    assert(trailer_value(file) == (high as nat) * 0x1_0000_0000 + (low as nat));
}

/// Where entry `i` of `count` entries of width `width` lies among the bits.
pub proof fn lemma_entry_range(i: int, count: nat, width: nat)
    requires
        0 <= i < count,
    ensures
        0 <= i * width,
        (i + 1) * width == i * width + width,
        (i + 1) * width <= count * width,
{
    assert(0 <= i * width) by (nonlinear_arith)
        requires
            0 <= i,
            width >= 0,
    ;
    assert((i + 1) * width == i * width + width) by (nonlinear_arith);
    assert((i + 1) * width <= count * width) by (nonlinear_arith)
        requires
            i + 1 <= count,
            width >= 0,
    ;
}

/// Entries read from bytes that hold `bits` are the entries of `bits`.
pub proof fn lemma_entries_of_held_bits(
    bytes: Seq<u8>,
    n: nat,
    bits: Seq<bool>,
    width: nat,
    count: nat,
)
    requires
        holds_bits(bytes, bits),
        bits.len() == count * width,
        bits.len() <= n <= 8 * bytes.len(),
    ensures
        log_entries(bits_of(bytes, n), width, count) == log_entries(bits, width, count),
{
    let read = bits_of(bytes, n);
    assert forall|i: int| 0 <= i < count implies log_entries(read, width, count)[i]
        == log_entries(bits, width, count)[i] by {
        lemma_entry_range(i, count, width);
        assert forall|k: int| i * width <= k < i * width + width implies read[k] == bits[k] by {
            assert(bit_at(bytes, k) == bits[k]);
        }
        lemma_bits_value_agree(read, bits, i * width, width);
    }
    assert(log_entries(read, width, count) =~= log_entries(bits, width, count));
}

/// A file of a log array declares the width and length of that array, and
/// its entries are those of the array.
pub proof fn lemma_log_array_file_read(file: Seq<u8>, width: nat, values: Seq<u64>)
    requires
        is_log_array_file(file, width, values),
    ensures
        declared_entries(file) == Some((width, values.len())),
        log_entries(file_bits(file), width, values.len()) == values,
{
    let count = values.len();
    lemma_trailer_round_trip(file, count, width);
    let bits = choose|bits: Seq<bool>|
        {
            &&& bits.len() == values.len() * width
            &&& #[trigger] holds_bits(file, bits)
            &&& log_entries(bits, width, values.len()) == values
        };
    lemma_entries_of_held_bits(file, (8 * (file.len() - 8)) as nat, bits, width, count);
}

/// The top bits of a number, one more at a time: the highest `j + 1` of the
/// lowest `s + j + 1` bits are twice the highest `j` and the next bit.
pub proof fn lemma_next_bit(v: u64, s: u64)
    requires
        s < 63,
    ensures
        (v >> s) == 2 * (v >> ((s + 1) as u64)) + ((v >> s) & 1),
{
    assert((v >> s) == 2 * (v >> ((s + 1) as u64)) + ((v >> s) & 1)) by (bit_vector)
        requires
            s < 63,
    ;
}

/// The highest of the lowest `width` bits of a number that fits `width`
/// bits is all that is left of it when the others are shifted out.
pub proof fn lemma_first_bit(v: u64, width: u64)
    requires
        1 <= width <= 64,
        fits(v, width as nat),
    ensures
        (v >> ((width - 1) as u64)) == (v >> ((width - 1) as u64)) & 1,
{
    if width == 64 {
        assert((v >> 63) == (v >> 63) & 1) by (bit_vector);
    } else {
        let s = (width - 1) as u64;
        assert((v >> s) == (v >> s) & 1) by (bit_vector)
            requires
                s < 63,
                v >> ((s + 1) as u64) == 0,
        ;
    }
}

/// Reads entry `index` of width `width` from the packed bits `bytes`.
pub fn read_entry(bytes: &[u8], width: u8, index: u64) -> (value: u64)
    requires
        1 <= width <= 64,
        index <= MAX_ENTRIES,
        (index + 1) * width <= 8 * bytes@.len(),
    ensures
        value == bits_value(bits_of(bytes@, (8 * bytes@.len()) as nat), index * width, width as nat),
{
    let ghost bits = bits_of(bytes@, (8 * bytes@.len()) as nat);
    assert(index * width <= MAX_ENTRIES * 64) by (nonlinear_arith)
        requires
            index <= MAX_ENTRIES,
            width <= 64,
    ;
    let start = index * (width as u64);
    assert((index + 1) * width == index * width + width) by (nonlinear_arith);
    let mut value: u64 = 0;
    let mut j: u8 = 0;
    while j < width
        invariant
            j <= width <= 64,
            start == index * width,
            start <= MAX_ENTRIES * 64,
            start + width <= 8 * bytes@.len(),
            bits == bits_of(bytes@, (8 * bytes@.len()) as nat),
            value == bits_value(bits, start as int, j as nat),
        decreases width - j,
    {
        let bit = get_bit(bytes, start + j as u64);
        proof {
            lemma_bits_value_fits(bits, start as int, j as nat);
            lemma_bits_value_fits(bits, start as int, (j + 1) as nat);
        }
        value = 2 * value + (if bit {
            1
        } else {
            0
        });
        j += 1;
    }
    value
}

/// Why bytes are not the file of a log array, or why a number cannot enter
/// one.
#[derive(Clone, Copy, PartialEq, Eq, Structural, Debug)]
pub enum LogArrayError {
    /// Fewer than the eight bytes of the trailer.
    InputBufferTooSmall,
    /// The width declared is not between 1 and 64.
    WidthTooLarge,
    /// The count and width declared do not fit the length of the file.
    UnexpectedInputBufferSize,
    /// The number has bits above the width of the array.
    ValueTooLarge,
}

/// A run of unsigned integers of one width.
pub struct LogArray {
    bytes: Vec<u8>,
    len: u64,
    width: u8,
}

impl View for LogArray {
    type V = Seq<u64>;

    /// The entries of the array.
    closed spec fn view(&self) -> Seq<u64> {
        log_entries(
            bits_of(self.bytes@, (8 * self.bytes@.len()) as nat),
            self.width as nat,
            self.len as nat,
        )
    }
}

impl LogArray {
    #[verifier::type_invariant]
    spec fn well_formed(self) -> bool {
        &&& 1 <= self.width <= 64
        &&& self.len <= MAX_ENTRIES
        &&& self.bytes@.len() == body_len((self.len * self.width) as nat)
    }

    /// The width of the entries, in bits.
    pub closed spec fn spec_width(&self) -> nat {
        self.width as nat
    }

    /// Reads a log array from its file.  The file must be as long as its
    /// last eight bytes say, and the width they declare must be between 1
    /// and 64.
    pub fn parse(file: &[u8]) -> (result: Result<LogArray, LogArrayError>)
        ensures
            match declared_entries(file@) {
                Some((width, count)) => {
                    &&& result is Ok
                    &&& result->Ok_0.spec_width() == width
                    &&& result->Ok_0@ == log_entries(file_bits(file@), width, count)
                },
                None => result is Err,
            },
            file@.len() < 8 ==> result is Err && result->Err_0
                == LogArrayError::InputBufferTooSmall,
            file@.len() >= 8 && !(1 <= trailer_value(file@) % 256 <= 64) ==> result is Err
                && result->Err_0 == LogArrayError::WidthTooLarge,
            file@.len() >= 8 && 1 <= trailer_value(file@) % 256 <= 64 && declared_entries(file@)
                is None ==> result is Err && result->Err_0
                == LogArrayError::UnexpectedInputBufferSize,
    {
        let total = file.len();
        if total < 8 {
            return Err(LogArrayError::InputBufferTooSmall);
        }
        let high = read_u32_be(slice_subrange(file, total - 8, total - 4));
        let low = read_u32_be(slice_subrange(file, total - 4, total));
        let trailer: u64 = (high as u64) * 0x1_0000_0000 + (low as u64);
        let width = (trailer % 256) as u8;
        let len = trailer / 256;
        if width == 0 || width > 64 {
            return Err(LogArrayError::WidthTooLarge);
        }
        let body = total - 8;
        if body % 8 != 0 {
            return Err(LogArrayError::UnexpectedInputBufferSize);
        }
        assert(len * width <= MAX_ENTRIES * 64) by (nonlinear_arith)
            requires
                len <= MAX_ENTRIES,
                width <= 64,
        ;
        let bit_count = len * (width as u64);
        let needed = bit_count / 64 + (if bit_count % 64 == 0 {
            0u64
        } else {
            1u64
        });
        if (body / 8) as u64 != needed {
            return Err(LogArrayError::UnexpectedInputBufferSize);
        }
        let bytes = vstd::slice::slice_to_vec(slice_subrange(file, 0, body));
        let array = LogArray { bytes, len, width };
        proof {
            let mine = bits_of(array.bytes@, (8 * array.bytes@.len()) as nat);
            let theirs = file_bits(file@);
            assert(mine.len() == theirs.len());
            assert forall|k: int| 0 <= k < mine.len() implies mine[k] == theirs[k] by {
                assert(array.bytes@[k / 8] == file@[k / 8]);
            }
            assert(mine =~= theirs);
        }
        Ok(array)
    }

    /// The number of entries.
    pub fn len(&self) -> (len: u64)
        ensures
            len == self@.len(),
            len <= MAX_ENTRIES,
    {
        proof {
            use_type_invariant(self);
        }
        self.len
    }

    /// The width of the entries, in bits.  No entry is as great as two to
    /// the width.
    pub fn width(&self) -> (width: u8)
        ensures
            width == self.spec_width(),
            1 <= width <= 64,
            forall|i: int| 0 <= i < self@.len() ==> (#[trigger] self@[i]) < pow2(width as nat),
    {
        proof {
            use_type_invariant(self);
            let bits = bits_of(self.bytes@, (8 * self.bytes@.len()) as nat);
            assert forall|i: int| 0 <= i < self@.len() implies (#[trigger] self@[i]) < pow2(
                self.width as nat,
            ) by {
                lemma_bits_value_bound(bits, i * self.width, self.width as nat);
                lemma_bits_value_fits(bits, i * self.width, self.width as nat);
            }
        }
        self.width
    }

    /// Entry `index`.
    pub fn entry(&self, index: u64) -> (value: u64)
        requires
            index < self@.len(),
        ensures
            value == self@[index as int],
    {
        proof {
            use_type_invariant(self);
            assert((index + 1) * self.width <= self.len * self.width) by (nonlinear_arith)
                requires
                    index + 1 <= self.len,
                    self.width >= 0,
            ;
        }
        read_entry(self.bytes.as_slice(), self.width, index)
    }

    /// The file of the array: its packed entries in whole words of 64 bits,
    /// then their count and their width.  Read as a file, it gives the array
    /// back.
    pub fn to_file(&self) -> (file: Vec<u8>)
        requires
            self@.len() * 8 + 128 <= usize::MAX,
        ensures
            declared_entries(file@) == Some((self.spec_width(), self@.len())),
            log_entries(file_bits(file@), self.spec_width(), self@.len()) == self@,
    {
        proof {
            use_type_invariant(self);
            lemma_trailer_parts(self.len as nat, self.width as nat);
        }
        let mut file = self.bytes.clone();
        let ghost body = file@;
        let trailer: u64 = self.len * 256 + self.width as u64;
        let high = write_u32_be((trailer / 0x1_0000_0000) as u32);
        let low = write_u32_be((trailer % 0x1_0000_0000) as u32);
        file.extend_from_slice(high.as_slice());
        file.extend_from_slice(low.as_slice());
        proof {
            assert(file@ =~= body + (high@ + low@));
            assert(file@.subrange(file@.len() - 8, file@.len() as int) =~= high@ + low@);
            lemma_trailer_round_trip(file@, self.len as nat, self.width as nat);
            let mine = bits_of(body, (8 * body.len()) as nat);
            let theirs = file_bits(file@);
            assert(mine.len() == theirs.len());
            assert forall|k: int| 0 <= k < mine.len() implies mine[k] == theirs[k] by {
                assert(body[k / 8] == file@[k / 8]);
            }
            assert(mine =~= theirs);
        }
        file
    }

    /// All entries, in order.
    pub fn decode(&self) -> (values: Vec<u64>)
        ensures
            values@ == self@,
    {
        let len = self.len();
        let mut values: Vec<u64> = Vec::new();
        let mut i: u64 = 0;
        while i < len
            invariant
                i <= len,
                len == self@.len(),
                values@ == self@.take(i as int),
            decreases len - i,
        {
            values.push(self.entry(i));
            proof {
                assert(values@ =~= self@.take(i as int + 1));
            }
            i += 1;
        }
        proof {
            assert(self@.take(len as int) =~= self@);
        }
        values
    }
}

/// Collects the entries of a log array.
pub struct LogArrayBuilder {
    bits: BitArrayBuilder,
    width: u8,
    count: u64,
}

impl View for LogArrayBuilder {
    type V = Seq<u64>;

    /// The entries pushed so far.
    closed spec fn view(&self) -> Seq<u64> {
        log_entries(self.bits@, self.width as nat, self.count as nat)
    }
}

impl LogArrayBuilder {
    /// The bits held are those of the entries pushed.
    pub closed spec fn wf(&self) -> bool {
        &&& self.bits.wf()
        &&& 1 <= self.width <= 64
        &&& self.count <= MAX_ENTRIES
        &&& self.bits@.len() == self.count * self.width
    }

    /// The width of the entries, in bits.
    pub closed spec fn spec_width(&self) -> nat {
        self.width as nat
    }

    /// A builder for entries of `width` bits that holds none.
    pub fn new(width: u8) -> (builder: Self)
        requires
            1 <= width <= 64,
        ensures
            builder.wf(),
            builder.spec_width() == width,
            builder@ == Seq::<u64>::empty(),
    {
        let builder = LogArrayBuilder { bits: BitArrayBuilder::new(), width, count: 0 };
        assert(builder@ =~= Seq::<u64>::empty());
        builder
    }

    /// The number of entries pushed so far.
    pub fn count(&self) -> (count: u64)
        ensures
            count == self@.len(),
    {
        self.count
    }

    /// Adds `value` behind the entries pushed so far, unless it has bits
    /// above the width: then nothing changes.
    pub fn push(&mut self, value: u64) -> (result: Result<(), LogArrayError>)
        requires
            old(self).wf(),
            old(self)@.len() < MAX_ENTRIES,
        ensures
            final(self).wf(),
            final(self).spec_width() == old(self).spec_width(),
            fits(value, old(self).spec_width()) ==> result is Ok && final(self)@ == old(self)@.push(
                value,
            ),
            !fits(value, old(self).spec_width()) ==> result == Err::<(), LogArrayError>(
                LogArrayError::ValueTooLarge,
            ) && final(self)@ == old(self)@,
    {
        let width = self.width;
        if width < 64 && value >> (width as u64) != 0 {
            return Err(LogArrayError::ValueTooLarge);
        }
        let ghost before = self.bits@;
        let ghost start = before.len() as int;
        proof {
            assert(self.count * width <= MAX_ENTRIES * 64) by (nonlinear_arith)
                requires
                    self.count <= MAX_ENTRIES,
                    width <= 64,
            ;
        }
        let mut j: u8 = 0;
        while j < width
            invariant
                j <= width <= 64,
                width == self.width,
                self.count == old(self).count,
                self.bits.wf(),
                start == before.len(),
                start <= MAX_ENTRIES * 64,
                self.bits@.len() == start + j,
                forall|k: int| 0 <= k < start ==> self.bits@[k] == before[k],
                fits(value, width as nat),
                j == 0 ==> bits_value(self.bits@, start, j as nat) == 0,
                j > 0 ==> bits_value(self.bits@, start, j as nat) == value >> ((width - j) as u64),
            decreases width - j,
        {
            let shift = (width - 1 - j) as u64;
            let bit = (value >> shift) & 1 == 1;
            let ghost held = self.bits@;
            self.bits.push(bit);
            proof {
                lemma_bits_value_agree(held, self.bits@, start, j as nat);
                if j == 0 {
                    lemma_first_bit(value, width as u64);
                } else {
                    lemma_next_bit(value, shift);
                }
                assert((value >> shift) & 1 == 0 || (value >> shift) & 1 == 1) by (bit_vector);
            }
            j += 1;
        }
        proof {
            assert(value >> 0u64 == value) by (bit_vector);
            let after = self.bits@;
            let w = width as nat;
            let n = self.count as nat;
            assert((n + 1) * w == n * w + w) by (nonlinear_arith);
            assert forall|i: int| 0 <= i < n implies log_entries(after, w, (n + 1) as nat)[i]
                == log_entries(before, w, n)[i] by {
                assert((i + 1) * w <= n * w) by (nonlinear_arith)
                    requires
                        i + 1 <= n,
                        w >= 0,
                ;
                assert((i + 1) * w == i * w + w) by (nonlinear_arith);
                assert(0 <= i * w) by (nonlinear_arith)
                    requires
                        0 <= i,
                        w >= 0,
                ;
                lemma_bits_value_agree(after, before, i * w, w);
            }
            assert(log_entries(after, w, (n + 1) as nat) =~= log_entries(before, w, n).push(
                value,
            ));
        }
        self.count = self.count + 1;
        Ok(())
    }

    /// The array of the entries pushed.
    pub fn into_array(self) -> (array: LogArray)
        requires
            self.wf(),
            self@.len() * 64 + 128 <= usize::MAX,
        ensures
            array@ == self@,
            array.spec_width() == self.spec_width(),
    {
        let count = self.count;
        let width = self.width;
        let ghost bits = self.bits@;
        proof {
            assert(count * width <= count * 64) by (nonlinear_arith)
                requires
                    width <= 64,
                    count >= 0,
            ;
        }
        let bytes = self.bits.into_words();
        proof {
            lemma_entries_of_held_bits(
                bytes@,
                (8 * bytes@.len()) as nat,
                bits,
                width as nat,
                count as nat,
            );
        }
        LogArray { bytes, len: count, width }
    }

    /// The file of the entries pushed: the packed bits, filled up with zeros
    /// to whole words of 64 bits, then the count and the width.
    pub fn finalize(self) -> (file: Vec<u8>)
        requires
            self.wf(),
            self@.len() * 64 + 128 <= usize::MAX,
        ensures
            is_log_array_file(file@, self.spec_width(), self@),
    {
        let count = self.count;
        let width = self.width;
        let ghost bits = self.bits@;
        proof {
            assert(count * width <= count * 64) by (nonlinear_arith)
                requires
                    width <= 64,
                    count >= 0,
            ;
        }
        let mut file = self.bits.into_words();
        let ghost body = file@;
        let trailer: u64 = count * 256 + width as u64;
        let high = write_u32_be((trailer / 0x1_0000_0000) as u32);
        let low = write_u32_be((trailer % 0x1_0000_0000) as u32);
        file.extend_from_slice(high.as_slice());
        file.extend_from_slice(low.as_slice());
        proof {
            assert(file@ =~= body + (high@ + low@));
            assert(file@.subrange(file@.len() - 8, file@.len() as int) =~= high@ + low@);
            lemma_holds_bits_extend(body, high@ + low@, bits);
        }
        file
    }
}

/// A number no greater than one that fits a width fits that width.
pub proof fn lemma_fits_below(v: u64, top: u64, width: u64)
    requires
        v <= top,
        1 <= width <= 64,
        fits(top, width as nat),
    ensures
        fits(v, width as nat),
{
    if width < 64 {
        assert(v >> width == 0) by (bit_vector)
            requires
                v <= top,
                width < 64,
                top >> width == 0,
        ;
    }
}

/// The least width, in bits, that holds every number up to `top`.
pub fn width_for(top: u64) -> (width: u8)
    ensures
        1 <= width <= 64,
        fits(top, width as nat),
        width > 1 ==> !fits(top, (width - 1) as nat),
{
    let mut width: u8 = 1;
    while width < 64 && (top >> (width as u64)) != 0
        invariant
            1 <= width <= 64,
            width > 1 ==> !fits(top, (width - 1) as nat),
        decreases 64 - width,
    {
        width += 1;
    }
    width
}

/// The log array of width `width` that holds `counts`, none of which is
/// above `top`.
pub fn pack(counts: &Vec<u64>, width: u8, top: u64) -> (array: LogArray)
    requires
        1 <= width <= 64,
        fits(top, width as nat),
        forall|i: int| 0 <= i < counts@.len() ==> (#[trigger] counts@[i]) <= top,
        counts@.len() <= MAX_ENTRIES,
        counts@.len() * 64 + 128 <= usize::MAX,
    ensures
        array@ == counts@,
        array.spec_width() == width,
{
    let mut builder = LogArrayBuilder::new(width);
    let mut i: usize = 0;
    while i < counts.len()
        invariant
            i <= counts.len(),
            builder.wf(),
            builder.spec_width() == width,
            1 <= width <= 64,
            fits(top, width as nat),
            forall|k: int| 0 <= k < counts@.len() ==> (#[trigger] counts@[k]) <= top,
            counts@.len() <= MAX_ENTRIES,
            builder@ == counts@.take(i as int),
        decreases counts.len() - i,
    {
        proof {
            lemma_fits_below(counts@[i as int], top, width as u64);
        }
        let pushed = builder.push(counts[i]);
        proof {
            assert(builder@ =~= counts@.take(i as int + 1));
        }
        i += 1;
    }
    proof {
        assert(counts@.take(counts@.len() as int) =~= counts@);
    }
    builder.into_array()
}

/// Reads the entries of a log array one after the other.
pub struct LogArrayReader<'a> {
    array: &'a LogArray,
    at: u64,
}

impl<'a> LogArrayReader<'a> {
    #[verifier::type_invariant]
    spec fn well_formed(self) -> bool {
        self.at <= self.array@.len()
    }

    /// The entries that are still to come.
    pub closed spec fn remaining(&self) -> Seq<u64> {
        self.array@.skip(self.at as int)
    }

    /// A reader that stands before the first entry of `array`.
    pub fn new(array: &'a LogArray) -> (reader: Self)
        ensures
            reader.remaining() == array@,
    {
        proof {
            assert(array@.skip(0) =~= array@);
        }
        LogArrayReader { array, at: 0 }
    }

    /// The next entry, and nothing behind the last.
    pub fn next(&mut self) -> (entry: Option<u64>)
        ensures
            match entry {
                Some(value) => old(self).remaining().len() > 0 && value == old(self).remaining()[0] && final(self).remaining() == old(self).remaining().skip(1),
                None => old(self).remaining().len() == 0 && final(self).remaining().len() == 0,
            },
    {
        proof {
            use_type_invariant(&*self);
        }
        if self.at >= self.array.len() {
            return None;
        }
        let value = self.array.entry(self.at);
        proof {
            assert(self.array@.skip(self.at as int).skip(1) =~= self.array@.skip(self.at + 1));
        }
        self.at = self.at + 1;
        Some(value)
    }
}

/// The greatest of `values`; zero where there are none.
pub fn greatest(values: &Vec<u64>) -> (top: u64)
    ensures
        forall|i: int| 0 <= i < values@.len() ==> (#[trigger] values@[i]) <= top,
        values@.len() == 0 ==> top == 0,
        values@.len() > 0 ==> exists|i: int| 0 <= i < values@.len() && values@[i] == top,
{
    let mut top: u64 = 0;
    let mut i: usize = 0;
    while i < values.len()
        invariant
            i <= values@.len(),
            forall|k: int| 0 <= k < i ==> (#[trigger] values@[k]) <= top,
            i == 0 ==> top == 0,
            i > 0 ==> exists|k: int| 0 <= k < i && values@[k] == top,
        decreases values@.len() - i,
    {
        if values[i] > top || i == 0 {
            top = values[i];
        } else {
            proof {
                let w = choose|k: int| 0 <= k < i && values@[k] == top;
                assert(0 <= w < i + 1 && values@[w] == top);
            }
        }
        i += 1;
    }
    top
}

} // verus!
