//! Integer kinds: the bounds of each integer type, whether a literal fits one, the
//! range printed in an E0204 note, and the next flag value of an `enum_flags`.

use vstd::prelude::*;
use crate::suggest::str_eq;
use vstd::arithmetic::power2::{pow2, lemma_pow2_unfold, lemma_pow2_strictly_increases, lemma2_to64, lemma_pow2_pos};

verus! {

/// The width and signedness of an integer type.
#[derive(Clone, Copy, Debug, PartialEq, Eq, Structural)]
pub struct IntKind {
    pub signed: bool,
    pub bits: u16,
}

/// An integer width this library can bound: one to sixty-four bits.
pub open spec fn valid_bits(bits: u16) -> bool {
    1 <= bits <= 64
}

/// The least value of the integer type `(signed, bits)`.
pub open spec fn spec_int_min(signed: bool, bits: u16) -> int {
    if signed {
        -(pow2((bits - 1) as nat) as int)
    } else {
        0
    }
}

/// The greatest value of the integer type `(signed, bits)`.
pub open spec fn spec_int_max(signed: bool, bits: u16) -> int {
    if signed {
        pow2((bits - 1) as nat) - 1
    } else {
        pow2(bits as nat) - 1
    }
}

/// `2^e` as an `i128`.
fn pow2_i128(e: u16) -> (r: i128)
    requires
        e <= 64,
    ensures
        r == pow2(e as nat),
{
    proof {
        lemma2_to64();
    }
    let mut p: i128 = 1;
    let mut i: u16 = 0;
    while i < e
        invariant
            i <= e <= 64,
            p == pow2(i as nat),
            pow2(64) == 0x10000000000000000,
        decreases e - i,
    {
        proof {
            lemma_pow2_unfold((i + 1) as nat);
            if i + 1 < 64 {
                lemma_pow2_strictly_increases((i + 1) as nat, 64);
            }
        }
        p = p * 2;
        i = i + 1;
    }
    p
}

impl IntKind {
    /// The least value of this type.
    pub fn min(&self) -> (r: i128)
        requires
            valid_bits(self.bits),
        ensures
            r == spec_int_min(self.signed, self.bits),
    {
        if self.signed {
            let p = pow2_i128(self.bits - 1);
            -p
        } else {
            0
        }
    }

    /// The greatest value of this type.
    pub fn max(&self) -> (r: i128)
        requires
            valid_bits(self.bits),
        ensures
            r == spec_int_max(self.signed, self.bits),
    {
        proof {
            lemma_pow2_pos((self.bits - 1) as nat);
            lemma_pow2_pos(self.bits as nat);
        }
        if self.signed {
            pow2_i128(self.bits - 1) - 1
        } else {
            pow2_i128(self.bits) - 1
        }
    }
}

/// Whether an integer literal of value `value` fits the integer type `(signed, bits)`.
///
/// Against the type's range, both ends, so that a signed minimum fits its own type
/// and a negative value never fits an unsigned one.
pub fn literal_fits(signed: bool, bits: u16, value: i128) -> (r: bool)
    requires
        valid_bits(bits),
    ensures
        r == (spec_int_min(signed, bits) <= value && value <= spec_int_max(signed, bits)),
{
    let kind = IntKind { signed, bits };
    value >= kind.min() && value <= kind.max()
}

/// The last entry of `variadic_params`, if any, is the variadic parameter.
pub fn variadic_last_param(variadic_params: &[bool]) -> (r: bool)
    ensures
        r == (variadic_params@.len() > 0 && variadic_params@.last()),
{
    if variadic_params.len() == 0 {
        false
    } else {
        variadic_params[variadic_params.len() - 1]
    }
}


/// The character of the decimal digit `d`.
pub open spec fn digit_char(d: nat) -> char {
    ((d + 48) as u8) as char
}

/// The decimal digits of `n`, most significant first, with no leading zero.
pub open spec fn spec_digits(n: nat) -> Seq<char>
    decreases n,
{
    if n < 10 {
        seq![digit_char(n)]
    } else {
        spec_digits(n / 10) + seq![digit_char(n % 10)]
    }
}

/// The decimal spelling of `v`: a `-` before the digits of a negative value.
pub open spec fn spec_decimal(v: int) -> Seq<char> {
    if v < 0 {
        seq!['-'] + spec_digits((-v) as nat)
    } else {
        spec_digits(v as nat)
    }
}

/// The one-character string for the digit `d`.
pub fn digit_str(d: u8) -> (r: &'static str)
    requires
        d < 10,
    ensures
        r@ == seq![digit_char(d as nat)],
{
    proof {
        reveal_strlit("0");
        reveal_strlit("1");
        reveal_strlit("2");
        reveal_strlit("3");
        reveal_strlit("4");
        reveal_strlit("5");
        reveal_strlit("6");
        reveal_strlit("7");
        reveal_strlit("8");
        reveal_strlit("9");
    }
    match d {
        0 => "0",
        1 => "1",
        2 => "2",
        3 => "3",
        4 => "4",
        5 => "5",
        6 => "6",
        7 => "7",
        8 => "8",
        _ => "9",
    }
}

/// Appends the decimal digits of `n`.
pub fn push_digits(out: &mut String, n: u128)
    ensures
        final(out)@ == old(out)@ + spec_digits(n as nat),
    decreases n,
{
    if n >= 10 {
        push_digits(out, n / 10);
    }
    out.append(digit_str((n % 10) as u8));
    proof {
        assert(n < 10 ==> n % 10 == n);
    }
}

/// Appends the decimal spelling of `v`.
pub fn push_decimal(out: &mut String, v: i128)
    ensures
        final(out)@ == old(out)@ + spec_decimal(v as int),
{
    proof {
        reveal_strlit("-");
    }
    if v < 0 {
        out.append("-");
        let magnitude: u128 = (-(v + 1)) as u128 + 1;
        push_digits(out, magnitude);
        assert(final(out)@ =~= old(out)@ + spec_decimal(v as int));
    } else {
        push_digits(out, v as u128);
    }
}

/// A human-readable range for an integer type, for the E0204 note: `"0 to 255"`.
///
/// Built from the same bounds `literal_fits` tests against, so the note cannot print a
/// range the check does not enforce.
pub fn int_range(signed: bool, bits: u16) -> (r: String)
    requires
        valid_bits(bits),
    ensures
        r@ == spec_decimal(spec_int_min(signed, bits)) + " to "@ + spec_decimal(spec_int_max(signed, bits)),
{
    let kind = IntKind { signed, bits };
    let lo = kind.min();
    let hi = kind.max();
    proof {
        lemma2_to64();
        if bits - 1 < 64 {
            lemma_pow2_strictly_increases((bits - 1) as nat, 64);
        }
        reveal_strlit(" to ");
    }
    let mut out = String::new();
    push_decimal(&mut out, lo);
    out.append(" to ");
    push_decimal(&mut out, hi);
    assert(out@ =~= spec_decimal(lo as int) + " to "@ + spec_decimal(hi as int));
    out
}

/// `r` is an exact power of two.
pub open spec fn is_power_of_two(r: int) -> bool {
    exists|k: nat| pow2(k) == r
}

/// The next power of two strictly above `value`, for `enum_flags` numbering.
///
/// A non-positive `value` yields 1, so an explicit `NONE :: 0;` leaves the sequence
/// undisturbed. Above the previous *value*, not doubling it: after an explicit `3` the
/// next flag is `4`. Saturates at `i64::MAX` rather than wrapping to a negative.
pub fn next_power_of_two_above(value: i64) -> (r: i64)
    ensures
        value <= 0 ==> r == 1,
        0 < value < 0x4000_0000_0000_0000 ==> is_power_of_two(r as int) && value < r && r <= 2 * value,
        value >= 0x4000_0000_0000_0000 ==> r == i64::MAX,
{
    if value <= 0 {
        return 1;
    }
    if value >= 0x4000_0000_0000_0000 {
        return i64::MAX;
    }
    proof {
        lemma2_to64();
    }
    let mut p: i64 = 1;
    let ghost mut k: nat = 0;
    while p <= value
        invariant
            0 < value < 0x4000_0000_0000_0000,
            1 <= p,
            p == pow2(k),
            p <= 2 * value,
            p == 1 || 2 * value >= p,
        decreases 2 * value - p,
    {
        proof {
            lemma_pow2_unfold(k + 1);
            k = k + 1;
        }
        p = p * 2;
    }
    proof {
        assert(pow2(k) == p);
    }
    p
}
/// The integer type a builtin name denotes, in the order the tower is listed: `s8`,
/// `s16`, `s32`, `s64`, `u8`, `u16`, `u32`, `u64`.
pub open spec fn spec_int_named(name: Seq<char>) -> Option<(bool, u16)> {
    if name == "s8"@ {
        Some((true, 8u16))
    } else if name == "s16"@ {
        Some((true, 16u16))
    } else if name == "s32"@ {
        Some((true, 32u16))
    } else if name == "s64"@ {
        Some((true, 64u16))
    } else if name == "u8"@ {
        Some((false, 8u16))
    } else if name == "u16"@ {
        Some((false, 16u16))
    } else if name == "u32"@ {
        Some((false, 32u16))
    } else if name == "u64"@ {
        Some((false, 64u16))
    } else {
        None
    }
}

/// The integer type a name denotes, if it is one of the builtin integer names.
pub fn int_named(name: &str) -> (r: Option<(bool, u16)>)
    ensures
        r == spec_int_named(name@),
        r matches Some((_, bits)) ==> valid_bits(bits),
{
    if str_eq(name, "s8") {
        Some((true, 8))
    } else if str_eq(name, "s16") {
        Some((true, 16))
    } else if str_eq(name, "s32") {
        Some((true, 32))
    } else if str_eq(name, "s64") {
        Some((true, 64))
    } else if str_eq(name, "u8") {
        Some((false, 8))
    } else if str_eq(name, "u16") {
        Some((false, 16))
    } else if str_eq(name, "u32") {
        Some((false, 32))
    } else if str_eq(name, "u64") {
        Some((false, 64))
    } else {
        None
    }
}

} // verus!
