//! Bit arrays.
//!
//! A bit array is a run of booleans packed eight to a byte, the first bit in
//! the most significant place.  In a file the packed bits are filled up with
//! zeros to whole words of 64 bits, and the number of bits follows in eight
//! bytes, least significant first.

use vstd::bytes::{
    lemma_auto_spec_u64_to_from_le_bytes, spec_u64_from_le_bytes, spec_u64_to_le_bytes,
    u64_from_le_bytes, u64_to_le_bytes,
};
use vstd::prelude::*;
use vstd::slice::slice_subrange;

verus! {

/// Bit `k` of the packed bits `bytes`.
pub open spec fn bit_at(bytes: Seq<u8>, k: int) -> bool
    recommends
        0 <= k < 8 * bytes.len(),
{
    (bytes[k / 8] >> ((7 - k % 8) as u8)) & 1u8 == 1u8
}

/// The first `n` bits of the packed bits `bytes`.
pub open spec fn bits_of(bytes: Seq<u8>, n: nat) -> Seq<bool>
    recommends
        n <= 8 * bytes.len(),
{
    Seq::new(n, |k: int| bit_at(bytes, k))
}

/// The number of bytes that the body of a file of `n` bits takes: whole
/// words of 64 bits.
pub open spec fn body_len(n: nat) -> nat {
    (8 * ((n + 63) / 64)) as nat
}

/// `bytes` start with `bits`, packed and filled up with zeros to whole
/// words.
pub open spec fn holds_bits(bytes: Seq<u8>, bits: Seq<bool>) -> bool {
    &&& bytes.len() >= body_len(bits.len())
    &&& forall|k: int| 0 <= k < bits.len() ==> bit_at(bytes, k) == #[trigger] bits[k]
    &&& forall|k: int| bits.len() <= k < 8 * body_len(bits.len()) ==> !#[trigger] bit_at(bytes, k)
}

/// `file` is the file of the bit array `bits`: the bits packed and filled up
/// with zeros to whole words, then their number.
pub open spec fn is_bit_array_file(file: Seq<u8>, bits: Seq<bool>) -> bool {
    &&& bits.len() <= u64::MAX
    &&& file.len() == body_len(bits.len()) + 8
    &&& file.subrange(file.len() - 8, file.len() as int) == spec_u64_to_le_bytes(bits.len() as u64)
    &&& holds_bits(file, bits)
}

/// Bytes behind packed bits change none of them.
pub proof fn lemma_holds_bits_extend(bytes: Seq<u8>, more: Seq<u8>, bits: Seq<bool>)
    requires
        holds_bits(bytes, bits),
    ensures
        holds_bits(bytes + more, bits),
{
    let longer = bytes + more;
    assert forall|k: int| 0 <= k < 8 * body_len(bits.len()) implies bit_at(longer, k) == bit_at(
        bytes,
        k,
    ) by {
        assert(longer[k / 8] == bytes[k / 8]);
    }
    assert(forall|k: int| 0 <= k < bits.len() ==> bit_at(longer, k) == #[trigger] bits[k]);
    assert(forall|k: int|
        bits.len() <= k < 8 * body_len(bits.len()) ==> !#[trigger] bit_at(longer, k));
}

/// The number of bits that the file `file` declares, if it is as long as a
/// file of that many bits is.
pub open spec fn declared_bits(file: Seq<u8>) -> Option<nat> {
    if file.len() < 8 {
        None
    } else {
        let n = spec_u64_from_le_bytes(file.subrange(file.len() - 8, file.len() as int)) as nat;
        if file.len() == body_len(n) + 8 {
            Some(n)
        } else {
            None
        }
    }
}

/// A file holds at least an eighth as many bytes as the bits it declares.
pub proof fn lemma_declared_bits_bound(file: Seq<u8>)
    ensures
        declared_bits(file) matches Some(n) ==> n <= 8 * file.len(),
{
}

/// A file of a bit array declares the length of that array, and its bits are
/// those of the array.
pub proof fn lemma_bit_array_file_read(file: Seq<u8>, bits: Seq<bool>)
    requires
        is_bit_array_file(file, bits),
    ensures
        declared_bits(file) == Some(bits.len()),
        bits_of(file, bits.len()) == bits,
{
    lemma_auto_spec_u64_to_from_le_bytes();
    assert(bits_of(file, bits.len()) =~= bits);
}

/// Setting a bit of a byte sets that bit and no other; a zero byte has no
/// bit set.
pub proof fn lemma_set_bit(b: u8, i: u8, j: u8)
    requires
        i < 8,
        j < 8,
    ensures
        ((b | (1u8 << i)) >> j) & 1u8 == (if i == j {
            1u8
        } else {
            (b >> j) & 1u8
        }),
        (0u8 >> j) & 1u8 == 0u8,
{
    assert(((b | (1u8 << i)) >> j) & 1u8 == (if i == j {
        1u8
    } else {
        (b >> j) & 1u8
    })) by (bit_vector)
        requires
            i < 8,
            j < 8,
    ;
    assert((0u8 >> j) & 1u8 == 0u8) by (bit_vector);
}

/// A zero byte behind packed bits adds eight bits that are not set and
/// leaves the others as they were.
pub proof fn lemma_push_zero_byte(bytes: Seq<u8>)
    ensures
        forall|k: int| 0 <= k < 8 * bytes.len() ==> #[trigger] bit_at(bytes.push(0u8), k) == bit_at(bytes, k),
        forall|k: int|
            8 * bytes.len() <= k < 8 * bytes.len() + 8 ==> !#[trigger] bit_at(bytes.push(0u8), k),
{
    let longer = bytes.push(0u8);
    assert forall|k: int| 8 * bytes.len() <= k < 8 * bytes.len() + 8 implies !#[trigger] bit_at(
        longer,
        k,
    ) by {
        assert(k / 8 == bytes.len());
        assert(longer[k / 8] == 0u8);
        lemma_set_bit(0, 0, (7 - k % 8) as u8);
    }
    assert forall|k: int| 0 <= k < 8 * bytes.len() implies #[trigger] bit_at(longer, k) == bit_at(
        bytes,
        k,
    ) by {
        assert(longer[k / 8] == bytes[k / 8]);
    }
}

/// Setting bit `n` of packed bits sets that bit and leaves the others as
/// they were.
pub proof fn lemma_set_bit_at(bytes: Seq<u8>, n: int)
    requires
        0 <= n < 8 * bytes.len(),
    ensures
        forall|k: int|
            0 <= k < 8 * bytes.len() ==> #[trigger] bit_at(
                bytes.update(n / 8, bytes[n / 8] | (1u8 << ((7 - n % 8) as u8))),
                k,
            ) == (k == n || bit_at(bytes, k)),
{
    let shift = (7 - n % 8) as u8;
    let byte = bytes[n / 8];
    let after = bytes.update(n / 8, byte | (1u8 << shift));
    assert forall|k: int| 0 <= k < 8 * bytes.len() implies #[trigger] bit_at(after, k) == (k == n
        || bit_at(bytes, k)) by {
        let j = (7 - k % 8) as u8;
        if k / 8 == n / 8 {
            lemma_set_bit(byte, shift, j);
            assert(after[k / 8] == byte | (1u8 << shift));
            if k == n {
                assert(j == shift);
            } else {
                assert(j != shift);
            }
        } else {
            assert(after[k / 8] == bytes[k / 8]);
        }
    }
}

/// Reads bit `k` of the packed bits `bytes`.
pub fn get_bit(bytes: &[u8], k: u64) -> (bit: bool)
    requires
        k < 8 * bytes@.len(),
    ensures
        bit == bit_at(bytes@, k as int),
{
    let byte = bytes[(k / 8) as usize];
    let shift = (7 - k % 8) as u8;
    (byte >> shift) & 1u8 == 1u8
}

/// Collects bits, one at a time, into packed bytes.
pub struct BitArrayBuilder {
    bytes: Vec<u8>,
    count: u64,
}

impl View for BitArrayBuilder {
    type V = Seq<bool>;

    /// The bits pushed so far.
    closed spec fn view(&self) -> Seq<bool> {
        bits_of(self.bytes@, self.count as nat)
    }
}

impl BitArrayBuilder {
    /// The bytes hold the bits pushed and zeros behind them.
    pub closed spec fn wf(&self) -> bool {
        &&& self.bytes@.len() == (self.count + 7) / 8
        &&& forall|k: int| self.count <= k < 8 * self.bytes@.len() ==> !#[trigger] bit_at(self.bytes@, k)
    }

    /// A builder that holds no bits.
    pub fn new() -> (builder: Self)
        ensures
            builder.wf(),
            builder@ == Seq::<bool>::empty(),
    {
        let builder = BitArrayBuilder { bytes: Vec::new(), count: 0 };
        assert(builder@ =~= Seq::<bool>::empty());
        builder
    }

    /// The number of bits pushed so far.
    pub fn count(&self) -> (count: u64)
        ensures
            count == self@.len(),
    {
        self.count
    }

    /// Adds `bit` behind the bits pushed so far.
    pub fn push(&mut self, bit: bool)
        requires
            old(self).wf(),
            old(self)@.len() < u64::MAX,
        ensures
            final(self).wf(),
            final(self)@ == old(self)@.push(bit),
    {
        let ghost before = self.bytes@;
        let ghost n = self.count as int;
        if self.count % 8 == 0 {
            self.bytes.push(0);
            proof {
                lemma_push_zero_byte(before);
            }
        }
        let ghost padded = self.bytes@;
        assert(forall|k: int| 0 <= k < n ==> bit_at(padded, k) == bit_at(before, k));
        assert(forall|k: int| n <= k < 8 * padded.len() ==> !bit_at(padded, k));
        assert(n < 8 * padded.len());
        if bit {
            let idx = self.bytes.len() - 1;
            let shift = (7 - self.count % 8) as u8;
            assert(idx == n / 8);
            let byte = self.bytes[idx];
            self.bytes.set(idx, byte | (1u8 << shift));
            proof {
                lemma_set_bit_at(padded, n);
                assert(self.bytes@ == padded.update(n / 8, padded[n / 8] | (1u8 << ((7 - n % 8) as u8))));
            }
        }
        self.count = self.count + 1;
        proof {
            assert(forall|k: int| 0 <= k < n ==> bit_at(self.bytes@, k) == bit_at(before, k));
            assert(bit_at(self.bytes@, n) == bit);
            assert(self@ =~= old(self)@.push(bit));
        }
    }

    /// The bits pushed, packed and filled up with zeros to whole words of
    /// 64 bits.
    pub fn into_words(self) -> (body: Vec<u8>)
        requires
            self.wf(),
            self@.len() + 128 <= usize::MAX,
        ensures
            body@.len() == body_len(self@.len()),
            holds_bits(body@, self@),
    {
        let mut body = self.bytes;
        let ghost packed = body@;
        let ghost n = self.count as int;
        let words = self.count / 64 + (if self.count % 64 == 0 {
            0u64
        } else {
            1u64
        });
        assert(words == (n + 63) / 64);
        let target = (words * 8) as usize;
        assert(target >= packed.len());
        while body.len() < target
            invariant
                packed.len() <= body@.len() <= target,
                0 <= n <= 8 * packed.len(),
                forall|k: int| 0 <= k < n ==> bit_at(body@, k) == bit_at(packed, k),
                forall|k: int| n <= k < 8 * body@.len() ==> !bit_at(body@, k),
            decreases target - body@.len(),
        {
            proof {
                lemma_push_zero_byte(body@);
            }
            body.push(0);
        }
        proof {
            assert(self@.len() == n);
            assert forall|k: int| 0 <= k < n implies bit_at(body@, k) == #[trigger] self@[k] by {
                assert(bit_at(body@, k) == bit_at(packed, k));
            }
        }
        body
    }

    /// The array of the bits pushed.
    pub fn into_array(self) -> (array: BitArray)
        requires
            self.wf(),
            self@.len() + 128 <= usize::MAX,
        ensures
            array@ == self@,
    {
        let len = self.count;
        let ghost bits = self@;
        let bytes = self.into_words();
        let array = BitArray { bytes, len };
        proof {
            assert(array@ =~= bits);
        }
        array
    }

    /// The file of the bits pushed: the packed bits, filled up with zeros to
    /// whole words of 64 bits, and their number.
    pub fn finalize(self) -> (file: Vec<u8>)
        requires
            self.wf(),
            self@.len() + 128 <= usize::MAX,
        ensures
            is_bit_array_file(file@, self@),
    {
        let count = self.count;
        let mut file = self.into_words();
        let ghost body = file@;
        let trailer = u64_to_le_bytes(count);
        file.extend_from_slice(trailer.as_slice());
        proof {
            assert(self@.len() == count);
            assert(file@ =~= body + trailer@);
            assert(file@.subrange(file@.len() - 8, file@.len() as int) =~= trailer@);
            lemma_holds_bits_extend(body, trailer@, self@);
        }
        file
    }
}

/// Why bytes are not the file of a bit array.
#[derive(Clone, Copy, PartialEq, Eq, Structural, Debug)]
pub enum BitArrayError {
    /// Fewer than the eight bytes of the length.
    InputBufferTooSmall,
    /// The length declared does not fit the length of the file.
    UnexpectedInputBufferSize,
}

/// A run of bits.
pub struct BitArray {
    bytes: Vec<u8>,
    len: u64,
}

impl View for BitArray {
    type V = Seq<bool>;

    /// The bits of the array.
    closed spec fn view(&self) -> Seq<bool> {
        bits_of(self.bytes@, self.len as nat)
    }
}

impl BitArray {
    #[verifier::type_invariant]
    spec fn well_formed(self) -> bool {
        self.bytes@.len() == body_len(self.len as nat)
    }

    /// Reads a bit array from its file.  The file must be as long as its
    /// last eight bytes say: whole words for that many bits, and those
    /// eight bytes.
    pub fn from_bits(file: &[u8]) -> (result: Result<BitArray, BitArrayError>)
        ensures
            match declared_bits(file@) {
                Some(n) => result is Ok && result->Ok_0@ == bits_of(file@, n),
                None => result is Err,
            },
            file@.len() < 8 ==> result is Err && result->Err_0 == BitArrayError::InputBufferTooSmall,
            file@.len() >= 8 && declared_bits(file@) is None ==> result is Err && result->Err_0
                == BitArrayError::UnexpectedInputBufferSize,
    {
        let total = file.len();
        if total < 8 {
            return Err(BitArrayError::InputBufferTooSmall);
        }
        let len = u64_from_le_bytes(slice_subrange(file, total - 8, total));
        let body = total - 8;
        if body % 8 != 0 {
            return Err(BitArrayError::UnexpectedInputBufferSize);
        }
        let words = (body / 8) as u64;
        let needed = len / 64 + (if len % 64 == 0 {
            0u64
        } else {
            1u64
        });
        if words != needed {
            return Err(BitArrayError::UnexpectedInputBufferSize);
        }
        let bytes = vstd::slice::slice_to_vec(slice_subrange(file, 0, body));
        let array = BitArray { bytes, len };
        proof {
            assert(array@ =~= bits_of(file@, len as nat));
        }
        Ok(array)
    }

    /// The number of bits.
    pub fn len(&self) -> (len: u64)
        ensures
            len == self@.len(),
    {
        self.len
    }

    /// Bit `index`.
    pub fn get(&self, index: u64) -> (bit: bool)
        requires
            index < self@.len(),
        ensures
            bit == self@[index as int],
    {
        proof {
            use_type_invariant(self);
        }
        get_bit(self.bytes.as_slice(), index)
    }

    /// The file of the array: its packed bits in whole words of 64 bits, and
    /// their number.  Read as a file, it gives the array back.
    pub fn to_file(&self) -> (file: Vec<u8>)
        requires
            self@.len() + 128 <= usize::MAX,
        ensures
            declared_bits(file@) == Some(self@.len()),
            bits_of(file@, self@.len()) == self@,
    {
        proof {
            use_type_invariant(self);
            lemma_auto_spec_u64_to_from_le_bytes();
        }
        let mut file = self.bytes.clone();
        let trailer = u64_to_le_bytes(self.len);
        file.extend_from_slice(trailer.as_slice());
        proof {
            assert(file@.subrange(file@.len() - 8, file@.len() as int) =~= trailer@);
            assert forall|k: int| 0 <= k < self.len implies bit_at(file@, k) == bit_at(
                self.bytes@,
                k,
            ) by {
                assert(file@[k / 8] == self.bytes@[k / 8]);
            }
            assert(bits_of(file@, self@.len()) =~= self@);
        }
        file
    }

    /// The packed bits, as many whole bytes as hold them.
    pub fn bytes(&self) -> (bytes: &[u8])
        ensures
            self@.len() <= 8 * bytes@.len(),
            self@ == bits_of(bytes@, self@.len()),
    {
        proof {
            use_type_invariant(self);
        }
        self.bytes.as_slice()
    }
}

/// The bit array of `bits`.
pub fn bits_to_array(bits: &Vec<bool>) -> (array: BitArray)
    requires
        bits@.len() + 128 <= usize::MAX,
        bits@.len() < u64::MAX,
    ensures
        array@ == bits@,
{
    let mut builder = BitArrayBuilder::new();
    let mut i: usize = 0;
    while i < bits.len()
        invariant
            i <= bits@.len(),
            bits@.len() < u64::MAX,
            builder.wf(),
            builder@ == bits@.take(i as int),
        decreases bits@.len() - i,
    {
        builder.push(bits[i]);
        proof {
            assert(builder@ =~= bits@.take(i as int + 1));
        }
        i += 1;
    }
    proof {
        assert(bits@.take(bits@.len() as int) =~= bits@);
    }
    builder.into_array()
}

} // verus!
