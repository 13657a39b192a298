//! Decimal and hexadecimal text of numbers.
use vstd::prelude::*;

verus! {

broadcast use vstd::slice::group_slice_axioms;

/// An ASCII decimal digit.
pub open spec fn is_digit(c: char) -> bool {
    '0' <= c <= '9'
}

/// The value of a decimal digit.
pub open spec fn digit_value(c: char) -> nat {
    (c as int - 48) as nat
}

/// The value of a string of decimal digits, most significant first.
pub open spec fn digits_value(d: Seq<char>) -> nat
    decreases d.len(),
{
    if d.len() == 0 {
        0
    } else {
        digits_value(d.drop_last()) * 10 + digit_value(d.last())
    }
}

/// The digits of a number, without a sign: an optional `+`, then one or
/// more ASCII digits.
pub open spec fn unsigned_digits(s: Seq<char>) -> Seq<char> {
    if s.len() >= 1 && s[0] == '+' {
        s.drop_first()
    } else {
        s
    }
}

/// What `str::parse::<usize>` makes of a text: its value where it is an
/// optional `+` and one or more digits whose value fits in a `usize`.
pub open spec fn spec_parse_usize(s: Seq<char>) -> Option<nat> {
    let d = unsigned_digits(s);
    if d.len() >= 1 && (forall|i: int| 0 <= i < d.len() ==> is_digit(#[trigger] d[i])) && digits_value(d) <= usize::MAX {
        Some(digits_value(d))
    } else {
        None
    }
}

/// A longer string of digits is worth at least as much as its prefix.
pub proof fn lemma_digits_value_prefix(d: Seq<char>, k: int)
    requires
        0 <= k <= d.len(),
    ensures
        digits_value(d.take(k)) <= digits_value(d),
    decreases d.len(),
{
    if k < d.len() {
        assert(d.drop_last().take(k) =~= d.take(k));
        lemma_digits_value_prefix(d.drop_last(), k);
    } else {
        assert(d.take(k) =~= d);
    }
}

/// The number a text of decimal digits stands for, as `str::parse::<usize>`.
pub fn parse_usize(s: &[char]) -> (n: Option<usize>)
    ensures
        match n {
            Some(v) => spec_parse_usize(s@) == Some(v as nat),
            None => spec_parse_usize(s@) is None,
        },
{
    let start: usize = if s.len() >= 1 && s[0] == '+' { 1 } else { 0 };
    let ghost d = unsigned_digits(s@);
    assert(d =~= s@.subrange(start as int, s@.len() as int));
    if start >= s.len() {
        return None;
    }
    let mut value: usize = 0;
    let mut i: usize = start;
    while i < s.len()
        invariant
            start <= i <= s@.len(),
            d == s@.subrange(start as int, s@.len() as int),
            d == unsigned_digits(s@),
            d.len() >= 1,
            forall|j: int| 0 <= j < i - start ==> is_digit(#[trigger] d[j]),
            value as nat == digits_value(d.take(i - start)),
        decreases s.len() - i,
    {
        let c = s[i];
        if !('0' <= c && c <= '9') {
            assert(!is_digit(d[i - start]));
            return None;
        }
        let dv = (c as u32 - 48) as u8;
        assert(d.take(i - start + 1).drop_last() =~= d.take(i - start));
        let next: u128 = value as u128 * 10 + dv as u128;
        if next > usize::MAX as u128 {
            proof { lemma_digits_value_prefix(d, i - start + 1); }
            return None;
        }
        value = next as usize;
        i = i + 1;
    }
    assert(d.take(d.len() as int) =~= d);
    Some(value)
}

/// The character of a digit value below ten.
pub open spec fn digit_char(v: nat) -> char {
    if v == 0 {
        '0'
    } else if v == 1 {
        '1'
    } else if v == 2 {
        '2'
    } else if v == 3 {
        '3'
    } else if v == 4 {
        '4'
    } else if v == 5 {
        '5'
    } else if v == 6 {
        '6'
    } else if v == 7 {
        '7'
    } else if v == 8 {
        '8'
    } else {
        '9'
    }
}

/// The decimal digits of a number, most significant first, without leading zeros.
pub open spec fn decimal(n: nat) -> Seq<char>
    decreases n,
{
    if n < 10 {
        seq![digit_char(n)]
    } else {
        decimal(n / 10).push(digit_char(n % 10))
    }
}

/// The decimal text of an integer, with a `-` where it is negative.
pub open spec fn signed_decimal(i: int) -> Seq<char> {
    if i < 0 {
        seq!['-'] + decimal((-i) as nat)
    } else {
        decimal(i as nat)
    }
}

fn digit(v: u8) -> (c: char)
    requires
        v < 10,
    ensures
        c == digit_char(v as nat),
{
    if v == 0 {
        '0'
    } else if v == 1 {
        '1'
    } else if v == 2 {
        '2'
    } else if v == 3 {
        '3'
    } else if v == 4 {
        '4'
    } else if v == 5 {
        '5'
    } else if v == 6 {
        '6'
    } else if v == 7 {
        '7'
    } else if v == 8 {
        '8'
    } else {
        '9'
    }
}

/// The decimal digits of a number.
pub fn decimal_digits(n: u128) -> (digits: Vec<char>)
    ensures
        digits@ == decimal(n as nat),
    decreases n,
{
    if n < 10 {
        let mut v: Vec<char> = Vec::new();
        v.push(digit(n as u8));
        assert(v@ =~= seq![digit_char(n as nat)]);
        v
    } else {
        let mut v = decimal_digits(n / 10);
        v.push(digit((n % 10) as u8));
        v
    }
}

/// The decimal text of a 32-bit integer, as `i32` displays.
pub fn signed_decimal_digits(i: i32) -> (text: Vec<char>)
    ensures
        text@ == signed_decimal(i as int),
{
    if i < 0 {
        let magnitude: u128 = (0 - (i as i64)) as u128;
        let digits = decimal_digits(magnitude);
        let mut text: Vec<char> = Vec::new();
        text.push('-');
        let mut k: usize = 0;
        while k < digits.len()
            invariant
                k <= digits@.len(),
                text@ == seq!['-'] + digits@.take(k as int),
            decreases digits.len() - k,
        {
            text.push(digits[k]);
            k = k + 1;
            assert(text@ =~= seq!['-'] + digits@.take(k as int));
        }
        assert(digits@.take(digits@.len() as int) =~= digits@);
        text
    } else {
        decimal_digits(i as u128)
    }
}

/// The written decimal of a number reads back as that number.
pub proof fn lemma_decimal_parses(n: nat)
    ensures
        forall|i: int| 0 <= i < decimal(n).len() ==> is_digit(#[trigger] decimal(n)[i]),
        decimal(n).len() >= 1,
        digits_value(decimal(n)) == n,
        decimal(n)[0] != '+',
    decreases n,
{
    if n >= 10 {
        lemma_decimal_parses(n / 10);
        assert(decimal(n).drop_last() =~= decimal(n / 10));
        assert(digit_value(digit_char(n % 10)) == n % 10);
        assert(n == (n / 10) * 10 + n % 10);
        let d = decimal(n);
        assert(d.len() > 0);
        assert(d.last() == digit_char(n % 10));
        assert(digits_value(d) == digits_value(d.drop_last()) * 10 + digit_value(d.last()));
    } else {
        assert(decimal(n).drop_last() =~= Seq::<char>::empty());
        assert(digit_value(digit_char(n)) == n);
        let d = decimal(n);
        assert(d.len() == 1);
        assert(digits_value(d) == digits_value(d.drop_last()) * 10 + digit_value(d.last()));
    }
}

/// Law: the decimal text of a `usize` is parsed back to it.
pub proof fn decimal_round_trip(n: usize)
    ensures
        spec_parse_usize(decimal(n as nat)) == Some(n as nat),
{
    lemma_decimal_parses(n as nat);
}

/// The lower-case hexadecimal character of a value below sixteen.
pub open spec fn hex_char(v: nat) -> char {
    if v < 10 {
        (v + 48) as char
    } else {
        (v + 87) as char
    }
}

/// Bytes as lower-case hexadecimal, two characters each, as `{:x}` shows a digest.
pub open spec fn hex_lower(bytes: Seq<u8>) -> Seq<char>
    decreases bytes.len(),
{
    if bytes.len() == 0 {
        Seq::empty()
    } else {
        hex_lower(bytes.drop_last()) + seq![hex_char(bytes.last() as nat / 16), hex_char(bytes.last() as nat % 16)]
    }
}

/// Law: lower-case hex shows each byte, in order, as two characters: its
/// high and then its low four bits, `0`-`9` for values below ten and
/// `a`-`f` for the rest.
pub proof fn hex_lower_digits(bytes: Seq<u8>)
    ensures
        hex_lower(bytes).len() == 2 * bytes.len(),
        forall|i: int|
            0 <= i < bytes.len() ==> {
                let hi = #[trigger] bytes[i] / 16;
                let lo = bytes[i] % 16;
                &&& hex_lower(bytes)[2 * i] as u32 == if hi < 10 { hi + 48 } else { hi + 87 }
                &&& hex_lower(bytes)[2 * i + 1] as u32 == if lo < 10 { lo + 48 } else { lo + 87 }
            },
    decreases bytes.len(),
{
    if bytes.len() > 0 {
        let rest = bytes.drop_last();
        hex_lower_digits(rest);
        let h = hex_lower(bytes);
        let b = bytes.last();
        assert(h == hex_lower(rest) + seq![hex_char(b as nat / 16), hex_char(b as nat % 16)]);
        assert forall|i: int| 0 <= i < bytes.len() implies {
            let hi = #[trigger] bytes[i] / 16;
            let lo = bytes[i] % 16;
            &&& h[2 * i] as u32 == if hi < 10 { hi + 48 } else { hi + 87 }
            &&& h[2 * i + 1] as u32 == if lo < 10 { lo + 48 } else { lo + 87 }
        } by {
            if i < rest.len() {
                assert(rest[i] == bytes[i]);
                assert(h[2 * i] == hex_lower(rest)[2 * i]);
                assert(h[2 * i + 1] == hex_lower(rest)[2 * i + 1]);
            } else {
                assert(bytes[i] == b);
                assert(h[2 * i] == hex_char(b as nat / 16));
                assert(h[2 * i + 1] == hex_char(b as nat % 16));
            }
        }
    }
}

fn hex_digit(v: u8) -> (c: char)
    requires
        v < 16,
    ensures
        c == hex_char(v as nat),
{
    if v < 10 {
        (v + 48) as char
    } else {
        (v + 87) as char
    }
}

/// The lower-case hexadecimal text of a byte string.
pub fn to_hex_lower(bytes: &[u8]) -> (text: Vec<char>)
    ensures
        text@ == hex_lower(bytes@),
{
    let mut text: Vec<char> = Vec::new();
    let mut i: usize = 0;
    while i < bytes.len()
        invariant
            i <= bytes@.len(),
            text@ == hex_lower(bytes@.take(i as int)),
        decreases bytes.len() - i,
    {
        let b = bytes[i];
        assert(bytes@.take(i + 1).drop_last() =~= bytes@.take(i as int));
        text.push(hex_digit(b / 16));
        text.push(hex_digit(b % 16));
        i = i + 1;
        assert(text@ =~= hex_lower(bytes@.take(i as int)));
    }
    assert(bytes@.take(bytes@.len() as int) =~= bytes@);
    text
}

} // verus!
