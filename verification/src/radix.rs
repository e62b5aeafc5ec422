//! Numbers written in ASCII digits, decimal and hexadecimal, as the label
//! files and the layer directories hold them.

use vstd::prelude::*;

verus! {

/// The ASCII character of the digit `d`: `0` to `9`, then `a` to `f`.
pub open spec fn digit_char(d: nat) -> u8
    recommends
        d < 16,
{
    if d < 10 {
        (48 + d) as u8
    } else {
        (87 + d) as u8
    }
}

/// The value of the ASCII character `c` as a digit in `base`, if it is one.
/// In base 16 the letters are accepted in both cases.
pub open spec fn digit_value(c: u8, base: nat) -> Option<nat> {
    if 48 <= c <= 57 && c - 48 < base {
        Some((c - 48) as nat)
    } else if base == 16 && 97 <= c <= 102 {
        Some((c - 87) as nat)
    } else if base == 16 && 65 <= c <= 70 {
        Some((c - 55) as nat)
    } else {
        None
    }
}

/// `s` is one digit or more in `base`, and nothing else.
pub open spec fn is_number(s: Seq<u8>, base: nat) -> bool {
    s.len() > 0 && forall|i: int| 0 <= i < s.len() ==> (#[trigger] digit_value(s[i], base)) is Some
}

/// The number that the digits `s` write in `base`, most significant first.
pub open spec fn number_value(s: Seq<u8>, base: nat) -> nat
    decreases s.len(),
{
    if s.len() == 0 {
        0
    } else {
        number_value(s.drop_last(), base) * base + digit_value(s.last(), base).unwrap()
    }
}

/// What reading `s` as a 64-bit number in `base` gives: the number, unless
/// `s` is no number or the number does not fit.
pub open spec fn parsed(s: Seq<u8>, base: nat) -> Option<u64> {
    if is_number(s, base) && number_value(s, base) <= u64::MAX {
        Some(number_value(s, base) as u64)
    } else {
        None
    }
}

/// `n` in decimal, without leading zeros.
pub open spec fn decimal(n: nat) -> Seq<u8>
    decreases n,
{
    if n < 10 {
        seq![digit_char(n)]
    } else {
        decimal(n / 10).push(digit_char(n % 10))
    }
}

/// The lowest `width` hexadecimal digits of `n`, in lower case.
pub open spec fn fixed_hex(n: nat, width: nat) -> Seq<u8>
    decreases width,
{
    if width == 0 {
        Seq::empty()
    } else {
        fixed_hex(n / 16, (width - 1) as nat).push(digit_char(n % 16))
    }
}

/// Sixteen to the power `k`.
pub open spec fn pow16(k: nat) -> nat
    decreases k,
{
    if k == 0 {
        1
    } else {
        16 * pow16((k - 1) as nat)
    }
}

/// More digits never write a smaller number.
pub proof fn lemma_number_value_grows(s: Seq<u8>, k: int, base: nat)
    requires
        0 <= k <= s.len(),
        base >= 1,
    ensures
        number_value(s.take(k), base) <= number_value(s, base),
    decreases s.len() - k,
{
    if k == s.len() {
        assert(s.take(k) =~= s);
    } else {
        let front = s.drop_last();
        assert(front.take(k) =~= s.take(k));
        lemma_number_value_grows(front, k, base);
        assert(number_value(front, base) * base >= number_value(front, base)) by (nonlinear_arith)
            requires
                base >= 1,
        ;
    }
}

/// A number in decimal is read back as itself, and holds digits only.
pub proof fn lemma_decimal_round_trip(n: nat)
    ensures
        is_number(decimal(n), 10),
        number_value(decimal(n), 10) == n,
        forall|i: int| 0 <= i < decimal(n).len() ==> 48 <= #[trigger] decimal(n)[i] <= 57,
    decreases n,
{
    let s = decimal(n);
    if n < 10 {
        assert(s.drop_last() =~= Seq::<u8>::empty());
        assert(number_value(s.drop_last(), 10) == 0);
    } else {
        lemma_decimal_round_trip(n / 10);
        assert(s.drop_last() =~= decimal(n / 10));
        assert forall|i: int| 0 <= i < s.len() implies (#[trigger] digit_value(s[i], 10))
            is Some && 48 <= s[i] <= 57 by {
            if i < s.len() - 1 {
                assert(s[i] == decimal(n / 10)[i]);
                assert(digit_value(decimal(n / 10)[i], 10) is Some);
            }
        }
    }
}

/// A number below sixteen to the `width` is read back as itself from its
/// `width` hexadecimal digits.
pub proof fn lemma_fixed_hex_round_trip(n: nat, width: nat)
    requires
        n < pow16(width),
    ensures
        fixed_hex(n, width).len() == width,
        width > 0 ==> is_number(fixed_hex(n, width), 16),
        number_value(fixed_hex(n, width), 16) == n,
        forall|i: int|
            0 <= i < width ==> (#[trigger] digit_value(fixed_hex(n, width)[i], 16)) is Some
                && fixed_hex(n, width)[i] != 10,
    decreases width,
{
    let s = fixed_hex(n, width);
    if width > 0 {
        lemma_fixed_hex_round_trip(n / 16, (width - 1) as nat);
        assert(s.drop_last() =~= fixed_hex(n / 16, (width - 1) as nat));
        assert forall|i: int| 0 <= i < width implies (#[trigger] digit_value(s[i], 16))
            is Some && s[i] != 10 by {
            if i < width - 1 {
                assert(s[i] == fixed_hex(n / 16, (width - 1) as nat)[i]);
                assert(digit_value(fixed_hex(n / 16, (width - 1) as nat)[i], 16) is Some);
            }
        }
    }
}

/// Sixteen to the eighth is two to the thirty-second.
pub proof fn lemma_pow16_8()
    ensures
        pow16(8) == 0x1_0000_0000,
{
    reveal_with_fuel(pow16, 9);
}

fn digit_of(d: u64) -> (c: u8)
    requires
        d < 16,
    ensures
        c == digit_char(d as nat),
{
    if d < 10 {
        (48 + d) as u8
    } else {
        (87 + d) as u8
    }
}

fn value_of(c: u8, base: u64) -> (v: Option<u64>)
    requires
        base == 10 || base == 16,
    ensures
        v is Some <==> digit_value(c, base as nat) is Some,
        v is Some ==> v->Some_0 == digit_value(c, base as nat)->Some_0 && v->Some_0 < base,
{
    if 48 <= c && c <= 57 {
        Some((c - 48) as u64)
    } else if base == 16 && 97 <= c && c <= 102 {
        Some((c - 87) as u64)
    } else if base == 16 && 65 <= c && c <= 70 {
        Some((c - 55) as u64)
    } else {
        None
    }
}

/// Reads `s` as a number in base 10 or 16: the number that its digits
/// write, or nothing where `s` is empty, holds anything but digits, or
/// writes a number beyond 64 bits.
pub fn parse_number(s: &[u8], base: u64) -> (n: Option<u64>)
    requires
        base == 10 || base == 16,
    ensures
        n == parsed(s@, base as nat),
{
    if s.len() == 0 {
        return None;
    }
    let mut acc: u64 = 0;
    let mut i: usize = 0;
    while i < s.len()
        invariant
            i <= s.len(),
            base == 10 || base == 16,
            acc == number_value(s@.take(i as int), base as nat),
            forall|k: int| 0 <= k < i ==> (#[trigger] digit_value(s@[k], base as nat)) is Some,
        decreases s.len() - i,
    {
        let d = match value_of(s[i], base) {
            Some(d) => d,
            None => {
                return None;
            },
        };
        proof {
            assert(s@.take(i as int + 1).drop_last() =~= s@.take(i as int));
            lemma_number_value_grows(s@, i as int + 1, base as nat);
        }
        let shifted = match acc.checked_mul(base) {
            Some(x) => x,
            None => {
                return None;
            },
        };
        acc = match shifted.checked_add(d) {
            Some(x) => x,
            None => {
                return None;
            },
        };
        i += 1;
    }
    proof {
        assert(s@.take(s.len() as int) =~= s@);
    }
    Some(acc)
}

/// Writes `n` in decimal, without leading zeros.
pub fn format_decimal(n: u64) -> (s: Vec<u8>)
    ensures
        s@ == decimal(n as nat),
{
    let mut s: Vec<u8> = Vec::new();
    let mut left = n;
    while left >= 10
        invariant
            decimal(n as nat) == decimal(left as nat) + s@,
        decreases left,
    {
        let ghost before = s@;
        s.insert(0, digit_of(left % 10));
        proof {
            assert(decimal((left / 10) as nat).push(digit_char((left % 10) as nat)) + before
                =~= decimal((left / 10) as nat) + s@);
        }
        left = left / 10;
    }
    let ghost before = s@;
    s.insert(0, digit_of(left));
    proof {
        assert(decimal(left as nat) + before =~= s@);
    }
    s
}

/// Writes `n` in eight hexadecimal digits, lower case.
pub fn format_hex_word(n: u32) -> (s: Vec<u8>)
    ensures
        s@ == fixed_hex(n as nat, 8),
{
    let mut s: Vec<u8> = Vec::new();
    let mut left = n as u64;
    let mut j: usize = 0;
    while j < 8
        invariant
            j <= 8,
            s@.len() == j,
            fixed_hex(n as nat, 8) == fixed_hex(left as nat, (8 - j) as nat) + s@,
        decreases 8 - j,
    {
        let ghost before = s@;
        s.insert(0, digit_of(left % 16));
        proof {
            assert(fixed_hex((left / 16) as nat, (7 - j) as nat).push(
                digit_char((left % 16) as nat),
            ) + before =~= fixed_hex((left / 16) as nat, (7 - j) as nat) + s@);
        }
        left = left / 16;
        j += 1;
    }
    proof {
        assert(fixed_hex(left as nat, 0) + s@ =~= s@);
    }
    s
}

} // verus!
