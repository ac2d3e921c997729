//! Integers written in decimal digits.

use vstd::prelude::*;

use crate::text::{chars_of, string_of};

verus! {

/// The character is a decimal digit.
pub open spec fn is_digit(c: char) -> bool {
    '0' <= c <= '9'
}

/// The value of a decimal digit.
pub open spec fn digit_value(c: char) -> int {
    c as int - '0' as int
}

/// There are only decimal digits in `s`.
pub open spec fn all_digits(s: Seq<char>) -> bool {
    forall|i: int| 0 <= i < s.len() ==> is_digit(#[trigger] s[i])
}

/// The number that decimal digits write.
pub open spec fn digits_value(s: Seq<char>) -> int
    decreases s.len(),
{
    if s.len() == 0 {
        0
    } else {
        10 * digits_value(s.drop_last()) + digit_value(s.last())
    }
}

/// The decimal digits of a natural number.
pub open spec fn decimal(n: nat) -> Seq<char>
    decreases n,
{
    if n < 10 {
        seq![(48 + n) as char]
    } else {
        decimal(n / 10).push((48 + n % 10) as char)
    }
}

/// An integer in decimal, with a minus sign where it is negative.
pub open spec fn signed_decimal(v: int) -> Seq<char> {
    if v < 0 {
        seq!['-'] + decimal((-v) as nat)
    } else {
        decimal(v as nat)
    }
}

/// Writes a number in decimal.
pub fn decimal_text(n: u64) -> (res: String)
    ensures
        res@ == decimal(n as nat),
{
    wide_decimal_text(n as u128)
}

/// Writes a number in decimal.
pub fn wide_decimal_text(n: u128) -> (res: String)
    ensures
        res@ == decimal(n as nat),
{
    let digits = digits_of(n);
    string_of(digits.as_slice())
}

/// The decimal digits of a number.
fn digits_of(n: u128) -> (res: Vec<char>)
    ensures
        res@ == decimal(n as nat),
    decreases n,
{
    let last: char = (48 + (n % 10) as u8) as char;
    if n < 10 {
        let mut out: Vec<char> = Vec::new();
        out.push(last);
        assert(out@ =~= decimal(n as nat));
        out
    } else {
        let mut out = digits_of(n / 10);
        out.push(last);
        out
    }
}

/// Writes an integer in decimal.
pub fn signed_text(v: i32) -> (res: String)
    ensures
        res@ == signed_decimal(v as int),
{
    if v < 0 {
        let mut out: Vec<char> = Vec::new();
        out.push('-');
        let mut rest = digits_of((-(v as i64)) as u128);
        out.append(&mut rest);
        assert(out@ =~= seq!['-'] + decimal((-v) as nat));
        string_of(out.as_slice())
    } else {
        decimal_text(v as u64)
    }
}

/// Writing a number in decimal and reading the digits gives the number.
pub proof fn law_decimal_read_back(n: nat)
    ensures
        decimal(n).len() > 0,
        all_digits(decimal(n)),
        digits_value(decimal(n)) == n,
    decreases n,
{
    if n < 10 {
        let s = decimal(n);
        assert(s.drop_last() =~= Seq::<char>::empty());
        assert(digits_value(s.drop_last()) == 0);
    } else {
        law_decimal_read_back(n / 10);
        let s = decimal(n);
        assert(s.drop_last() =~= decimal(n / 10));
    }
}

/// Digits write a natural number.
pub proof fn lemma_digits_value(s: Seq<char>)
    requires
        all_digits(s),
    ensures
        digits_value(s) >= 0,
    decreases s.len(),
{
    if s.len() > 0 {
        assert(is_digit(s.last()));
        assert(all_digits(s.drop_last())) by {
            assert forall|i: int| 0 <= i < s.len() - 1 implies is_digit(
                #[trigger] s.drop_last()[i],
            ) by {
                assert(is_digit(s[i]));
            }
        }
        lemma_digits_value(s.drop_last());
    }
}

/// The number that `s` writes in one or more decimal digits, when it is at most `limit`.
pub open spec fn natural_up_to(s: Seq<char>, limit: int) -> Option<int> {
    if s.len() > 0 && all_digits(s) && digits_value(s) <= limit {
        Some(digits_value(s))
    } else {
        None
    }
}

/// The number that `s` writes as an unsigned integer of at most `limit`: digits, with or without a
/// plus sign in front.
pub open spec fn unsigned_of(s: Seq<char>, limit: int) -> Option<int> {
    if s.len() > 0 && s[0] == '+' {
        natural_up_to(s.skip(1), limit)
    } else {
        natural_up_to(s, limit)
    }
}

/// The number that `s` writes as an `i32`: digits, with or without a sign in front.
pub open spec fn i32_of(s: Seq<char>) -> Option<int> {
    if s.len() > 0 && s[0] == '-' {
        match natural_up_to(s.skip(1), i32::MAX + 1) {
            Some(v) => Some(-v),
            None => None,
        }
    } else {
        unsigned_of(s, i32::MAX as int)
    }
}

/// Reads digits from index `from` on.
fn read_digits(chars: &Vec<char>, from: usize, limit: u64) -> (res: Option<u64>)
    requires
        from <= chars@.len(),
        limit <= 0x1_0000_0000,
    ensures
        match res {
            Some(v) => natural_up_to(chars@.skip(from as int), limit as int) == Some(v as int),
            None => natural_up_to(chars@.skip(from as int), limit as int) is None,
        },
{
    if from == chars.len() {
        return None;
    }
    let ghost s = chars@.skip(from as int);
    let mut value: u64 = 0;
    let mut over: bool = false;
    let mut i: usize = from;
    assert(s.take(0) =~= Seq::<char>::empty());
    while i < chars.len()
        invariant
            limit <= 0x1_0000_0000,
            from <= i <= chars@.len(),
            s == chars@.skip(from as int),
            all_digits(s.take(i - from)),
            value <= limit,
            !over ==> value == digits_value(s.take(i - from)),
            over ==> digits_value(s.take(i - from)) > limit,
        decreases chars@.len() - i,
    {
        let c: char = chars[i];
        let ghost front = s.take(i - from);
        let ghost more = s.take(i - from + 1);
        assert(more.drop_last() =~= front);
        assert(more.last() == c);
        if !('0' <= c && c <= '9') {
            assert(s[i - from] == c);
            assert(!all_digits(s));
            return None;
        }
        proof {
            lemma_digits_value(front);
            assert forall|j: int| 0 <= j < more.len() implies is_digit(#[trigger] more[j]) by {
                if j < front.len() {
                    assert(is_digit(front[j]));
                }
            }
        }
        if !over {
            let next: u64 = 10 * value + (c as u64 - '0' as u64);
            if next > limit {
                over = true;
            } else {
                value = next;
            }
        }
        i = i + 1;
    }
    assert(s.take(s.len() as int) =~= s);
    if over {
        None
    } else {
        Some(value)
    }
}

/// Reads an unsigned integer of at most `limit`.
fn read_unsigned(chars: &Vec<char>, limit: u64) -> (res: Option<u64>)
    requires
        limit <= 0x1_0000_0000,
    ensures
        match res {
            Some(v) => unsigned_of(chars@, limit as int) == Some(v as int),
            None => unsigned_of(chars@, limit as int) is None,
        },
{
    assert(chars@.skip(0) =~= chars@);
    if chars.len() > 0 && chars[0] == '+' {
        read_digits(chars, 1, limit)
    } else {
        read_digits(chars, 0, limit)
    }
}

/// Reads a text as a `u32`.
pub fn parse_u32(s: &str) -> (res: Option<u32>)
    ensures
        match res {
            Some(v) => unsigned_of(s@, u32::MAX as int) == Some(v as int),
            None => unsigned_of(s@, u32::MAX as int) is None,
        },
{
    match read_unsigned(&chars_of(s), u32::MAX as u64) {
        Some(v) => Some(v as u32),
        None => None,
    }
}

/// Reads a text as a `u16`.
pub fn parse_u16(s: &str) -> (res: Option<u16>)
    ensures
        match res {
            Some(v) => unsigned_of(s@, u16::MAX as int) == Some(v as int),
            None => unsigned_of(s@, u16::MAX as int) is None,
        },
{
    match read_unsigned(&chars_of(s), u16::MAX as u64) {
        Some(v) => Some(v as u16),
        None => None,
    }
}

/// Reads a text as an `i32`.
pub fn parse_i32(s: &str) -> (res: Option<i32>)
    ensures
        match res {
            Some(v) => i32_of(s@) == Some(v as int),
            None => i32_of(s@) is None,
        },
{
    let chars = chars_of(s);
    if chars.len() > 0 && chars[0] == '-' {
        match read_digits(&chars, 1, 0x8000_0000) {
            Some(v) => Some((-(v as i64)) as i32),
            None => None,
        }
    } else {
        match read_unsigned(&chars, 0x7FFF_FFFF) {
            Some(v) => Some(v as i32),
            None => None,
        }
    }
}

/// Writing an `i32` and reading it gives the same one.
pub proof fn law_i32_read_back(v: i32)
    ensures
        i32_of(signed_decimal(v as int)) == Some(v as int),
{
    if v < 0 {
        let n = (-v) as nat;
        law_decimal_read_back(n);
        let s = seq!['-'] + decimal(n);
        assert(s.skip(1) =~= decimal(n));
    } else {
        law_decimal_read_back(v as nat);
        assert(is_digit(decimal(v as nat)[0]));
    }
}

/// The decimal digits of a number have no zero in front, unless the number is zero; a number of one
/// digit more has ten times the value and that digit.
pub proof fn law_decimal_has_no_leading_zero(n: nat)
    ensures
        n < 10 ==> decimal(n).len() == 1 && decimal(n)[0] as int == 48 + n,
        n >= 10 ==> decimal(n).len() == decimal(n / 10).len() + 1 && decimal(n)[0] != '0' && decimal(
            n,
        ).last() as int == 48 + n % 10 && decimal(n).drop_last() == decimal(n / 10),
        n > 0 ==> decimal(n)[0] != '0',
    decreases n,
{
    if n >= 10 {
        law_decimal_has_no_leading_zero(n / 10);
        law_decimal_read_back(n / 10);
        assert(decimal(n).drop_last() =~= decimal(n / 10));
    }
}

/// A negative integer is written with a minus sign, and no other one is.
pub proof fn law_sign_of_integers(v: int)
    ensures
        v >= 0 ==> signed_decimal(v) == decimal(v as nat),
        v < 0 ==> signed_decimal(v) == seq!['-'] + decimal((-v) as nat),
{
}

/// What is read as a natural number are one or more digits, with or without a plus sign in front, and
/// nothing else; its value is what the digits write.
pub proof fn law_only_digits_are_read(s: Seq<char>, limit: int)
    ensures
        unsigned_of(s, limit) matches Some(v) ==> 0 <= v <= limit && exists|d: Seq<char>|
            #[trigger] all_digits(d) && d.len() > 0 && digits_value(d) == v && (s == d || s
                == seq!['+'] + d),
        forall|d: Seq<char>|
            #[trigger] all_digits(d) && d.len() > 0 && digits_value(d) <= limit && (s == d || s
                == seq!['+'] + d) ==> unsigned_of(s, limit) == Some(digits_value(d)),
        s.len() == 0 ==> unsigned_of(s, limit) is None,
{
    if s.len() > 0 && s[0] == '+' {
        let d = s.skip(1);
        assert(s =~= seq!['+'] + d);
        if all_digits(d) {
            lemma_digits_value(d);
        }
    } else if all_digits(s) {
        lemma_digits_value(s);
    }
    assert forall|d: Seq<char>|
        #[trigger] all_digits(d) && d.len() > 0 && digits_value(d) <= limit && (s == d || s == seq![
            '+',
        ] + d) implies unsigned_of(s, limit) == Some(digits_value(d)) by {
        assert(is_digit(d[0]));
        if s == seq!['+'] + d {
            assert(s.skip(1) =~= d);
        }
    }
}

/// What is read as an `i32` is a natural number as above, or a minus sign and digits; a number that is
/// too great or too small for it is not read.
pub proof fn law_only_integers_are_read(s: Seq<char>)
    ensures
        i32_of(s) matches Some(v) ==> i32::MIN <= v <= i32::MAX,
        s.len() > 0 && s[0] == '-' && all_digits(s.skip(1)) && s.len() > 1 && digits_value(s.skip(1))
            <= 0x8000_0000 ==> i32_of(s) == Some(-digits_value(s.skip(1))),
        s.len() > 0 && s[0] == '-' && i32_of(s) is Some ==> s.len() > 1 && all_digits(s.skip(1)),
        s.len() == 0 || s[0] != '-' ==> i32_of(s) == unsigned_of(s, 0x7FFF_FFFF),
{
    if s.len() > 0 && s[0] == '-' {
        if all_digits(s.skip(1)) {
            lemma_digits_value(s.skip(1));
        }
    } else {
        law_only_digits_are_read(s, i32::MAX as int);
    }
}

} // verus!
