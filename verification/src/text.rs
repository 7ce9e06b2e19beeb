//! Numbers as text: how a value is written in decimal or hexadecimal, and how
//! a run of digits is read back.

use crate::error::LaddrError;
use vstd::arithmetic::div_mod::{
    lemma_div_decreases, lemma_fundamental_div_mod, lemma_mod_breakdown,
};
use vstd::prelude::*;

verus! {

/// The character that stands for the digit `d`: `0` to `9`, then `a` to `f`.
pub open spec fn digit_char(d: nat) -> char {
    if d < 10 {
        ('0' as nat + d) as char
    } else {
        ('a' as nat + d - 10) as char
    }
}

/// `value` written in base `radix` with no leading zeros; zero is `0`.
pub open spec fn number_text(value: nat, radix: nat) -> Seq<char>
    decreases value,
{
    if radix < 2 || value < radix {
        seq![digit_char(value)]
    } else {
        proof {
            lemma_div_decreases(value as int, radix as int);
        }
        number_text(value / radix, radix).push(digit_char(value % radix))
    }
}

/// `value` written in hexadecimal, lower case.
pub open spec fn hex_text(value: nat) -> Seq<char> {
    number_text(value, 16)
}

/// `value` written in decimal.
pub open spec fn dec_text(value: nat) -> Seq<char> {
    number_text(value, 10)
}

/// `value` in base `radix` in exactly `width` digits: its lowest `width`
/// digits, with zeros in front where it has fewer.
pub open spec fn fixed_text(value: nat, radix: nat, width: nat) -> Seq<char>
    decreases width,
{
    if width == 0 || radix < 2 {
        Seq::empty()
    } else {
        fixed_text(value / radix, radix, (width - 1) as nat).push(digit_char(value % radix))
    }
}

/// `String::push` of the standard library, taken on trust: the string
/// afterwards is the string before with `c` appended at its end.
pub assume_specification[ String::push ](s: &mut String, c: char)
    ensures
        final(s)@ == old(s)@.push(c),
;

/// The character of one digit below sixteen.
pub fn digit_to_char(d: u8) -> (c: char)
    requires
        d < 16,
    ensures
        c == digit_char(d as nat),
{
    if d < 10 {
        ('0' as u8 + d) as char
    } else {
        ('a' as u8 + (d - 10)) as char
    }
}

/// Appends `value`, written in base `radix`, to `out`.
pub fn push_number(out: &mut String, value: u128, radix: u128)
    requires
        2 <= radix <= 16,
    ensures
        final(out)@ == old(out)@ + number_text(value as nat, radix as nat),
    decreases value,
{
    if value < radix {
        out.push(digit_to_char(value as u8));
        assert(out@ =~= old(out)@ + number_text(value as nat, radix as nat));
    } else {
        proof {
            lemma_div_decreases(value as int, radix as int);
        }
        push_number(out, value / radix, radix);
        let last: u128 = value % radix;
        out.push(digit_to_char(last as u8));
        assert(out@ =~= old(out)@ + number_text(value as nat, radix as nat));
    }
}

/// Appends `value` to `out` in base `radix` in exactly `width` digits.
pub fn push_fixed(out: &mut String, value: u128, radix: u128, width: usize)
    requires
        2 <= radix <= 16,
    ensures
        final(out)@ == old(out)@ + fixed_text(value as nat, radix as nat, width as nat),
    decreases width,
{
    if width == 0 {
        assert(out@ =~= old(out)@ + fixed_text(value as nat, radix as nat, width as nat));
    } else {
        push_fixed(out, value / radix, radix, width - 1);
        let last: u128 = value % radix;
        out.push(digit_to_char(last as u8));
        assert(out@ =~= old(out)@ + fixed_text(value as nat, radix as nat, width as nat));
    }
}

/// `value` in hexadecimal.
pub fn hex_string(value: u128) -> (s: String)
    ensures
        s@ == hex_text(value as nat),
{
    let mut s = String::new();
    push_number(&mut s, value, 16);
    s
}

/// `value` in decimal.
pub fn dec_string(value: u128) -> (s: String)
    ensures
        s@ == dec_text(value as nat),
{
    let mut s = String::new();
    push_number(&mut s, value, 10);
    s
}

/// A flag as text: `true` or `false`.
pub open spec fn flag_text(flag: bool) -> Seq<char> {
    if flag {
        "true"@
    } else {
        "false"@
    }
}

/// An offset in blocks followed, in brackets and marked as the 4096-fold, by
/// the offset in bytes, both in base `radix`.
pub open spec fn scaled_text(blocks: nat, bytes: nat, radix: nat) -> Seq<char> {
    number_text(blocks, radix) + "(*4096="@ + number_text(bytes, radix) + ")"@
}

/// `flag` as text.
pub fn flag_string(flag: bool) -> (s: String)
    ensures
        s@ == flag_text(flag),
{
    if flag {
        "true".to_owned()
    } else {
        "false".to_owned()
    }
}

/// An offset in blocks and, in brackets, in bytes, both in base `radix`.
pub fn scaled_string(blocks: u128, bytes: u128, radix: u128) -> (s: String)
    requires
        2 <= radix <= 16,
    ensures
        s@ == scaled_text(blocks as nat, bytes as nat, radix as nat),
{
    let mut s = String::new();
    push_number(&mut s, blocks, radix);
    s.append("(*4096=");
    push_number(&mut s, bytes, radix);
    s.append(")");
    s
}

/// The digit that `c` stands for in base `radix`, if it stands for one: `0`
/// to `9`, then `a` to `f` in either case.
pub open spec fn digit_value(c: char, radix: nat) -> Option<nat> {
    let d: int = if '0' <= c <= '9' {
        c as int - '0' as int
    } else if 'a' <= c <= 'f' {
        c as int - 'a' as int + 10
    } else if 'A' <= c <= 'F' {
        c as int - 'A' as int + 10
    } else {
        16
    };
    if d < radix {
        Some(d as nat)
    } else {
        None
    }
}

/// Whether every character of `s` is a digit of base `radix`.
pub open spec fn all_digits(s: Seq<char>, radix: nat) -> bool {
    forall|i: int| 0 <= i < s.len() ==> (#[trigger] digit_value(s[i], radix)) is Some
}

/// Whether `s` is a number in base `radix`: one digit or more, and nothing
/// else.
pub open spec fn is_number_text(s: Seq<char>, radix: nat) -> bool {
    s.len() > 0 && all_digits(s, radix)
}

/// The number that the digits of `s` spell in base `radix`, the first digit
/// being the most significant.
pub open spec fn number_value(s: Seq<char>, radix: nat) -> nat
    decreases s.len(),
{
    if s.len() == 0 {
        0
    } else {
        number_value(s.drop_last(), radix) * radix + digit_value(s.last(), radix).unwrap()
    }
}

/// The digit that `c` stands for in base `radix`, if any.
pub fn char_digit(c: char, radix: u128) -> (d: Option<u8>)
    requires
        2 <= radix <= 16,
    ensures
        d is Some <==> digit_value(c, radix as nat) is Some,
        d is Some ==> d.unwrap() as nat == digit_value(c, radix as nat).unwrap(),
{
    let code: u32 = c as u32;
    let d: u32 = if '0' as u32 <= code && code <= '9' as u32 {
        code - '0' as u32
    } else if 'a' as u32 <= code && code <= 'f' as u32 {
        code - 'a' as u32 + 10
    } else if 'A' as u32 <= code && code <= 'F' as u32 {
        code - 'A' as u32 + 10
    } else {
        16
    };
    if (d as u128) < radix {
        Some(d as u8)
    } else {
        None
    }
}

/// Reads the characters of `s` from position `from` up to `to` as a number in
/// base `radix` that must not exceed `limit`.
pub fn parse_number(s: &str, from: usize, to: usize, radix: u128, limit: u128) -> (r: Result<
    u128,
    LaddrError,
>)
    requires
        from <= to <= s@.len(),
        2 <= radix <= 16,
    ensures
        match r {
            Ok(value) => {
                &&& is_number_text(s@.subrange(from as int, to as int), radix as nat)
                &&& number_value(s@.subrange(from as int, to as int), radix as nat) == value
                &&& value <= limit
            },
            Err(LaddrError::MalformedLiteral) => !is_number_text(
                s@.subrange(from as int, to as int),
                radix as nat,
            ),
            Err(LaddrError::NumericOverflow) => {
                &&& is_number_text(s@.subrange(from as int, to as int), radix as nat)
                &&& number_value(s@.subrange(from as int, to as int), radix as nat) > limit
            },
            Err(LaddrError::InvalidOffsetBits { .. }) => false,
        },
{
    if from == to {
        return Err(LaddrError::MalformedLiteral);
    }
    let ghost text = s@.subrange(from as int, to as int);
    let mut value: u128 = 0;
    let mut too_large = false;
    let mut i: usize = from;
    while i < to
        invariant
            from <= i <= to <= s@.len(),
            2 <= radix <= 16,
            text == s@.subrange(from as int, to as int),
            all_digits(s@.subrange(from as int, i as int), radix as nat),
            !too_large ==> number_value(s@.subrange(from as int, i as int), radix as nat) == value
                && value <= limit,
            too_large ==> number_value(s@.subrange(from as int, i as int), radix as nat) > limit,
        decreases to - i,
    {
        let ghost seen = s@.subrange(from as int, i as int);
        let ghost next = s@.subrange(from as int, i + 1);
        let c = s.get_char(i);
        assert(next.drop_last() =~= seen);
        assert(next.last() == c);
        match char_digit(c, radix) {
            None => {
                assert(digit_value(text[i - from], radix as nat) is None);
                return Err(LaddrError::MalformedLiteral);
            },
            Some(d) => {
                assert forall|k: int| 0 <= k < next.len() implies (#[trigger] digit_value(
                    next[k],
                    radix as nat,
                )) is Some by {
                    if k < seen.len() {
                        assert(next[k] == seen[k]);
                    }
                }
                let ghost before = number_value(seen, radix as nat);
                assert(number_value(next, radix as nat) == before * radix + d);
                assert(before * radix >= before) by (nonlinear_arith)
                    requires
                        radix >= 1,
                ;
                if !too_large {
                    match value.checked_mul(radix) {
                        None => {
                            too_large = true;
                        },
                        Some(shifted) => match shifted.checked_add(d as u128) {
                            None => {
                                too_large = true;
                            },
                            Some(sum) => {
                                if sum > limit {
                                    too_large = true;
                                } else {
                                    value = sum;
                                }
                            },
                        },
                    }
                }
            },
        }
        i += 1;
    }
    assert(s@.subrange(from as int, i as int) == text);
    if too_large {
        Err(LaddrError::NumericOverflow)
    } else {
        Ok(value)
    }
}

/// Where the run of decimal digits that starts at position `from` of `s`
/// ends: the position of the first character from there on that is no
/// decimal digit, or the length of `s`.
pub open spec fn digits_end(s: Seq<char>, from: int) -> int
    decreases s.len() - from,
{
    if 0 <= from < s.len() && digit_value(s[from], 10) is Some {
        digits_end(s, from + 1)
    } else {
        from
    }
}

/// Finds the end of the run of decimal digits that starts at `from`.
pub fn scan_digits(s: &str, from: usize) -> (end: usize)
    requires
        from <= s@.len(),
    ensures
        end == digits_end(s@, from as int),
        from <= end <= s@.len(),
        all_digits(s@.subrange(from as int, end as int), 10),
{
    let len = s.unicode_len();
    let mut i: usize = from;
    while i < len
        invariant
            from <= i <= len,
            len == s@.len(),
            digits_end(s@, from as int) == digits_end(s@, i as int),
            all_digits(s@.subrange(from as int, i as int), 10),
        decreases len - i,
    {
        let c = s.get_char(i);
        if char_digit(c, 10).is_none() {
            return i;
        }
        assert forall|k: int| 0 <= k < i + 1 - from implies (#[trigger] digit_value(
            s@.subrange(from as int, i + 1)[k],
            10,
        )) is Some by {
            if k < i - from {
                assert(s@.subrange(from as int, i + 1)[k] == s@.subrange(from as int, i as int)[k]);
            }
        }
        i += 1;
    }
    i
}

/// Whether the characters of `literal` stand in `s` from position `at` on.
pub fn has_literal_at(s: &str, at: usize, literal: &str) -> (found: bool)
    requires
        at <= s@.len(),
    ensures
        found <==> at + literal@.len() <= s@.len() && s@.subrange(
            at as int,
            at + literal@.len(),
        ) == literal@,
{
    let n = literal.unicode_len();
    let len = s.unicode_len();
    if n > len - at {
        return false;
    }
    let mut k: usize = 0;
    while k < n
        invariant
            k <= n,
            n == literal@.len(),
            len == s@.len(),
            at + n <= len,
            forall|j: int| 0 <= j < k ==> s@[at + j] == literal@[j],
        decreases n - k,
    {
        if s.get_char(at + k) != literal.get_char(k) {
            assert(s@.subrange(at as int, at + n)[k as int] != literal@[k as int]);
            return false;
        }
        k += 1;
    }
    assert(s@.subrange(at as int, at + n) =~= literal@);
    true
}

/// A digit's character stands for that digit.
pub proof fn lemma_digit_round_trip(d: nat, radix: nat)
    requires
        d < radix <= 16,
    ensures
        digit_value(digit_char(d), radix) == Some(d),
{
}

/// What is written is read back: the text of a number is a number, and the
/// number it spells is the one that was written.
pub proof fn lemma_text_round_trip(value: nat, radix: nat)
    requires
        2 <= radix <= 16,
    ensures
        is_number_text(number_text(value, radix), radix),
        number_value(number_text(value, radix), radix) == value,
    decreases value,
{
    let text = number_text(value, radix);
    if value < radix {
        lemma_digit_round_trip(value, radix);
        assert(text.drop_last() =~= Seq::<char>::empty());
        let before = number_value(text.drop_last(), radix);
        assert(before * radix == 0) by (nonlinear_arith)
            requires
                before == 0,
        ;
        assert(text.last() == digit_char(value));
    } else {
        let rest = number_text(value / radix, radix);
        lemma_div_decreases(value as int, radix as int);
        lemma_text_round_trip(value / radix, radix);
        lemma_fundamental_div_mod(value as int, radix as int);
        lemma_digit_round_trip(value % radix, radix);
        assert(text.drop_last() =~= rest);
        assert(text.last() == digit_char(value % radix));
        assert forall|i: int| 0 <= i < text.len() implies (#[trigger] digit_value(
            text[i],
            radix,
        )) is Some by {
            if i < rest.len() {
                assert(text[i] == rest[i]);
            }
        }
        assert(number_value(text, radix) == (value / radix) * radix + value % radix);
        assert((value / radix) * radix == radix * (value / radix)) by (nonlinear_arith);
    }
}

/// `radix` to the power of `digits`: one more than the largest number of
/// that many digits.
pub open spec fn radix_power(radix: nat, digits: nat) -> nat
    decreases digits,
{
    if digits == 0 {
        1
    } else {
        radix * radix_power(radix, (digits - 1) as nat)
    }
}

/// A power of a radix is positive.
pub proof fn lemma_radix_power_positive(radix: nat, digits: nat)
    requires
        radix >= 1,
    ensures
        radix_power(radix, digits) >= 1,
    decreases digits,
{
    if digits > 0 {
        lemma_radix_power_positive(radix, (digits - 1) as nat);
        let rest = radix_power(radix, (digits - 1) as nat);
        assert(radix * rest >= 1) by (nonlinear_arith)
            requires
                radix >= 1,
                rest >= 1,
        ;
    }
}

/// Digits in a row: the number that two texts spell one after the other is
/// the first one's number, moved up by the second one's length, plus the
/// second one's number.
pub proof fn lemma_number_value_of_concat(first: Seq<char>, second: Seq<char>, radix: nat)
    ensures
        number_value(first + second, radix) == number_value(first, radix) * radix_power(
            radix,
            second.len(),
        ) + number_value(second, radix),
    decreases second.len(),
{
    let high = number_value(first, radix);
    if second.len() == 0 {
        assert(first + second =~= first);
        assert(high * 1 == high) by (nonlinear_arith);
    } else {
        let whole = first + second;
        let shorter = second.drop_last();
        assert(whole.drop_last() =~= first + shorter);
        assert(whole.last() == second.last());
        lemma_number_value_of_concat(first, shorter, radix);
        let scale = radix_power(radix, shorter.len());
        let low = number_value(shorter, radix);
        let d = digit_value(second.last(), radix).unwrap();
        assert(number_value(whole, radix) == (high * scale + low) * radix + d);
        assert(number_value(second, radix) == low * radix + d);
        assert(radix_power(radix, second.len()) == radix * scale);
        assert((high * scale + low) * radix == high * (radix * scale) + low * radix)
            by (nonlinear_arith);
    }
}

/// A number written in a fixed width is that many digits, which spell the
/// number cut down to the width.
pub proof fn lemma_fixed_text(value: nat, radix: nat, width: nat)
    requires
        2 <= radix <= 16,
    ensures
        fixed_text(value, radix, width).len() == width,
        all_digits(fixed_text(value, radix, width), radix),
        number_value(fixed_text(value, radix, width), radix) == value % radix_power(radix, width),
    decreases width,
{
    let text = fixed_text(value, radix, width);
    if width == 0 {
    } else {
        let rest = fixed_text(value / radix, radix, (width - 1) as nat);
        lemma_fixed_text(value / radix, radix, (width - 1) as nat);
        lemma_digit_round_trip(value % radix, radix);
        assert(text.drop_last() =~= rest);
        assert(text.last() == digit_char(value % radix));
        assert forall|i: int| 0 <= i < text.len() implies (#[trigger] digit_value(
            text[i],
            radix,
        )) is Some by {
            if i < rest.len() {
                assert(text[i] == rest[i]);
            }
        }
        let scale = radix_power(radix, (width - 1) as nat);
        lemma_radix_power_positive(radix, (width - 1) as nat);
        lemma_mod_breakdown(value as int, radix as int, scale as int);
        assert(number_value(text, radix) == ((value / radix) % scale) * radix + value % radix);
        assert(((value / radix) % scale) * radix == radix * ((value / radix) % scale))
            by (nonlinear_arith);
    }
}

/// Hexadecimal text holds digits only, so neither an `L` nor an `x`.
pub proof fn lemma_hex_text_is_plain(value: nat)
    ensures
        is_number_text(hex_text(value), 16),
        number_value(hex_text(value), 16) == value,
        forall|i: int| 0 <= i < hex_text(value).len() ==> hex_text(value)[i] != 'L',
        forall|i: int| 0 <= i < hex_text(value).len() ==> hex_text(value)[i] != 'x',
{
    lemma_text_round_trip(value, 16);
    assert forall|i: int| 0 <= i < hex_text(value).len() implies hex_text(value)[i] != 'L'
        && hex_text(value)[i] != 'x' by {
        assert(digit_value(hex_text(value)[i], 16) is Some);
    }
}

} // verus!
