//! Layers as the store names them.
//!
//! A layer is identified by five 32-bit words.  Written out, the identifier
//! is forty hexadecimal digits, eight a word, and that text names the
//! layer's directory and stands in labels and in the metadata of its
//! children.  The metadata file of a layer holds the identifier of its
//! parent, or the word `base`.

use crate::radix::{
    fixed_hex, format_hex_word, is_number, lemma_fixed_hex_round_trip, lemma_pow16_8, number_value,
    parse_number,
};
use crate::text::string_from_utf8;
use vstd::prelude::*;
use vstd::slice::slice_subrange;
use vstd::string::StringSliceAdditionalSpecFns;
use vstd::utf8::{
    decode_utf8, is_leading_byte_width_1, partial_valid_utf8,
    partial_valid_utf8_extend_ascii_block,
};

verus! {

/// Whether a layer stands alone or on a parent.
#[derive(Clone, Copy, PartialEq, Eq, Structural, Debug)]
pub enum LayerType {
    Base,
    Child,
}

/// The identifier `name` written out: forty hexadecimal digits in lower
/// case, eight for each word.
pub open spec fn name_hex(name: Seq<u32>) -> Seq<u8>
    recommends
        name.len() == 5,
{
    fixed_hex(name[0] as nat, 8) + fixed_hex(name[1] as nat, 8) + fixed_hex(name[2] as nat, 8)
        + fixed_hex(name[3] as nat, 8) + fixed_hex(name[4] as nat, 8)
}

/// The word written in the eight digits of `s` from `at` on, if they are
/// hexadecimal digits.
pub open spec fn hex_word(s: Seq<u8>, at: int) -> Option<u32>
    recommends
        0 <= at,
        at + 8 <= s.len(),
{
    if is_number(s.subrange(at, at + 8), 16) {
        Some(number_value(s.subrange(at, at + 8), 16) as u32)
    } else {
        None
    }
}

/// The identifier that `s` writes out, if `s` is forty hexadecimal digits.
/// Letters are accepted in both cases.
pub open spec fn hex_name(s: Seq<u8>) -> Option<Seq<u32>> {
    if s.len() == 40 && hex_word(s, 0) is Some && hex_word(s, 8) is Some && hex_word(s, 16)
        is Some && hex_word(s, 24) is Some && hex_word(s, 32) is Some {
        Some(
            seq![
                hex_word(s, 0)->Some_0,
                hex_word(s, 8)->Some_0,
                hex_word(s, 16)->Some_0,
                hex_word(s, 24)->Some_0,
                hex_word(s, 32)->Some_0,
            ],
        )
    } else {
        None
    }
}

/// Eight hexadecimal digits never write more than 32 bits.
pub proof fn lemma_hex_word_fits(s: Seq<u8>)
    requires
        s.len() <= 8,
        s.len() > 0 ==> is_number(s, 16),
    ensures
        number_value(s, 16) < crate::radix::pow16(s.len()),
    decreases s.len(),
{
    if s.len() > 0 {
        let front = s.drop_last();
        assert(crate::radix::digit_value(s.last(), 16) is Some);
        if front.len() > 0 {
            assert forall|i: int| 0 <= i < front.len() implies (#[trigger] crate::radix::digit_value(
                front[i],
                16,
            )) is Some by {
                assert(front[i] == s[i]);
            }
        }
        lemma_hex_word_fits(front);
    }
}

/// An identifier written out is forty digits without a line break, and
/// reads back as itself.
pub proof fn lemma_name_round_trip(name: Seq<u32>)
    requires
        name.len() == 5,
    ensures
        name_hex(name).len() == 40,
        hex_name(name_hex(name)) == Some(name),
        forall|i: int| 0 <= i < 40 ==> #[trigger] name_hex(name)[i] != 10,
        forall|i: int| 0 <= i < 40 ==> 48 <= #[trigger] name_hex(name)[i] <= 102,
{
    let s = name_hex(name);
    lemma_pow16_8();
    lemma_fixed_hex_round_trip(name[0] as nat, 8);
    lemma_fixed_hex_round_trip(name[1] as nat, 8);
    lemma_fixed_hex_round_trip(name[2] as nat, 8);
    lemma_fixed_hex_round_trip(name[3] as nat, 8);
    lemma_fixed_hex_round_trip(name[4] as nat, 8);
    assert(s.subrange(0, 8) =~= fixed_hex(name[0] as nat, 8));
    assert(s.subrange(8, 16) =~= fixed_hex(name[1] as nat, 8));
    assert(s.subrange(16, 24) =~= fixed_hex(name[2] as nat, 8));
    assert(s.subrange(24, 32) =~= fixed_hex(name[3] as nat, 8));
    assert(s.subrange(32, 40) =~= fixed_hex(name[4] as nat, 8));
    assert(hex_name(s)->Some_0 =~= name);
    assert forall|i: int| 0 <= i < 40 implies #[trigger] s[i] != 10 && 48 <= s[i] <= 102 by {
        let w = i / 8;
        let word = fixed_hex(name[w] as nat, 8);
        assert(s[i] == word[i - 8 * w]);
        assert(crate::radix::digit_value(word[i - 8 * w], 16) is Some);
    }
}

/// Writes the identifier out in forty hexadecimal digits.
pub fn name_to_hex(name: [u32; 5]) -> (hex: Vec<u8>)
    ensures
        hex@ == name_hex(name@),
{
    let mut hex: Vec<u8> = Vec::new();
    let mut i: usize = 0;
    while i < 5
        invariant
            i <= 5,
            hex@.len() == 8 * i,
            i == 0 ==> hex@ == Seq::<u8>::empty(),
            i == 1 ==> hex@ == fixed_hex(name@[0] as nat, 8),
            i == 2 ==> hex@ == fixed_hex(name@[0] as nat, 8) + fixed_hex(name@[1] as nat, 8),
            i == 3 ==> hex@ == fixed_hex(name@[0] as nat, 8) + fixed_hex(name@[1] as nat, 8)
                + fixed_hex(name@[2] as nat, 8),
            i == 4 ==> hex@ == fixed_hex(name@[0] as nat, 8) + fixed_hex(name@[1] as nat, 8)
                + fixed_hex(name@[2] as nat, 8) + fixed_hex(name@[3] as nat, 8),
            i == 5 ==> hex@ == name_hex(name@),
        decreases 5 - i,
    {
        let ghost before = hex@;
        let word = format_hex_word(name[i]);
        proof {
            lemma_pow16_8();
            lemma_fixed_hex_round_trip(name@[i as int] as nat, 8);
        }
        hex.extend_from_slice(word.as_slice());
        proof {
            if i == 0 {
                assert(hex@ =~= fixed_hex(name@[0] as nat, 8));
            }
        }
        i += 1;
    }
    hex
}

/// Reads an identifier from its forty hexadecimal digits; anything else is
/// no identifier.
pub fn hex_to_name(hex: &[u8]) -> (name: Option<[u32; 5]>)
    ensures
        name is Some <==> hex_name(hex@) is Some,
        name is Some ==> name->Some_0@ == hex_name(hex@)->Some_0,
{
    if hex.len() != 40 {
        return None;
    }
    let mut name = [0u32;5];
    let mut i: usize = 0;
    while i < 5
        invariant
            i <= 5,
            hex@.len() == 40,
            forall|j: int| 0 <= j < i ==> hex_word(hex@, 8 * j) == Some(#[trigger] name@[j]),
        decreases 5 - i,
    {
        let word = slice_subrange(hex, 8 * i, 8 * i + 8);
        match parse_number(word, 16) {
            Some(w) => {
                proof {
                    lemma_pow16_8();
                    lemma_hex_word_fits(word@);
                }
                name[i] = w as u32;
            },
            None => {
                proof {
                    lemma_pow16_8();
                    if is_number(word@, 16) {
                        lemma_hex_word_fits(word@);
                    }
                    assert(hex_word(hex@, 8 * i as int) is None);
                }
                return None;
            },
        }
        i += 1;
    }
    proof {
        assert(hex_word(hex@, 0int) == Some(name@[0]));
        assert(hex_word(hex@, 8int) == Some(name@[1]));
        assert(hex_word(hex@, 16int) == Some(name@[2]));
        assert(hex_word(hex@, 24int) == Some(name@[3]));
        assert(hex_word(hex@, 32int) == Some(name@[4]));
        assert(name@ =~= hex_name(hex@)->Some_0);
    }
    Some(name)
}

/// The identifier as text: forty hexadecimal digits.
pub fn name_to_string(name: [u32; 5]) -> (text: String)
    ensures
        text@ == decode_utf8(name_hex(name@)),
{
    let hex = name_to_hex(name);
    proof {
        lemma_name_round_trip(name@);
        assert(hex@.subrange(0, 0) =~= Seq::<u8>::empty());
        assert(partial_valid_utf8(hex@, 0));
        assert forall|i: int| 0 <= i < 40 implies #[trigger] is_leading_byte_width_1(hex@[i]) by {
            assert(48 <= name_hex(name@)[i] <= 102);
        }
        partial_valid_utf8_extend_ascii_block(hex@, 0, 40);
        assert(hex@.subrange(0, 40) =~= hex@);
    }
    string_from_utf8(hex).unwrap()
}

/// The identifier that a text writes out, if it is forty hexadecimal
/// digits.
pub fn string_to_name(text: &str) -> (name: Option<[u32; 5]>)
    ensures
        name is Some <==> hex_name(text.spec_bytes()) is Some,
        name is Some ==> name->Some_0@ == hex_name(text.spec_bytes())->Some_0,
{
    hex_to_name(text.as_bytes())
}

/// A layer as a store lists it, by the number that the store knows it
/// under: the layer, and its parent if it stands on one.
pub struct ListedLayer {
    pub name: u128,
    pub parent: Option<u128>,
}

/// The layers among the first `upto` of `layers` that stand on `name`, in
/// the order of the list.
pub open spec fn children_among(layers: Seq<ListedLayer>, name: u128, upto: int) -> Seq<u128>
    decreases upto,
{
    if upto <= 0 {
        Seq::empty()
    } else if layers[upto - 1].parent == Some(name) {
        children_among(layers, name, upto - 1).push(layers[upto - 1].name)
    } else {
        children_among(layers, name, upto - 1)
    }
}

/// The layers of `layers` that stand on `name`.
pub fn layer_children(layers: &Vec<ListedLayer>, name: u128) -> (children: Vec<u128>)
    ensures
        children@ == children_among(layers@, name, layers@.len() as int),
{
    let mut children: Vec<u128> = Vec::new();
    let mut i: usize = 0;
    while i < layers.len()
        invariant
            i <= layers@.len(),
            children@ == children_among(layers@, name, i as int),
        decreases layers@.len() - i,
    {
        let stands_on = match layers[i].parent {
            Some(parent) => parent == name,
            None => false,
        };
        if stands_on {
            children.push(layers[i].name);
        }
        i += 1;
    }
    children
}

} // verus!
