//! Numbers written as text: decimal, zero-padded and hexadecimal.

use vstd::prelude::*;
use vstd::string::*;

use crate::text::{digit, digit_value, is_digit};

verus! {

/// The character of a decimal or hexadecimal digit.
pub open spec fn digit_char(d: int) -> char {
    if d < 10 {
        (d + '0' as u32) as char
    } else {
        (d - 10 + 'a' as u32) as char
    }
}

/// The character of the digit `d`.
pub fn char_of_digit(d: u8) -> (c: char)
    requires
        d < 16,
    ensures
        c == digit_char(d as int),
{
    if d < 10 {
        (d + 48) as char
    } else {
        (d - 10 + 97) as char
    }
}

/// `n` in decimal, without leading zeros.
pub open spec fn decimal(n: nat) -> Seq<char>
    decreases n,
{
    if n < 10 {
        seq![digit_char(n as int)]
    } else {
        decimal(n / 10).push(digit_char((n % 10) as int))
    }
}

/// `n` in decimal.
pub fn decimal_text(n: u64) -> (r: String)
    ensures
        r@ == decimal(n as nat),
    decreases n,
{
    if n < 10 {
        let mut r = String::new();
        r.push(char_of_digit(n as u8));
        assert(r@ =~= seq![digit_char(n as int)]);
        r
    } else {
        let mut r = decimal_text(n / 10);
        r.push(char_of_digit((n % 10) as u8));
        r
    }
}

/// A count too long for `decimal_text` in decimal.
pub fn long_decimal_text(n: u128) -> (r: String)
    ensures
        r@ == decimal(n as nat),
    decreases n,
{
    if n < 10 {
        let mut r = String::new();
        r.push(char_of_digit(n as u8));
        assert(r@ =~= seq![digit_char(n as int)]);
        r
    } else {
        let mut r = long_decimal_text(n / 10);
        r.push(char_of_digit((n % 10) as u8));
        r
    }
}

/// A decimal text has at least one character and only digits.
pub proof fn lemma_decimal(n: nat)
    ensures
        decimal(n).len() > 0,
        forall|i: int| 0 <= i < decimal(n).len() ==> is_digit(#[trigger] decimal(n)[i]),
    decreases n,
{
    if n >= 10 {
        lemma_decimal(n / 10);
    }
}

/// The number that a text of decimal digits writes.
pub open spec fn decimal_value(s: Seq<char>) -> int
    decreases s.len(),
{
    if s.len() == 0 {
        0
    } else {
        decimal_value(s.drop_last()) * 10 + digit_value(s.last())
    }
}

/// Reading a number's decimal text gives the number back.
pub proof fn lemma_decimal_value(n: nat)
    ensures
        decimal_value(decimal(n)) == n,
    decreases n,
{
    if n >= 10 {
        lemma_decimal_value(n / 10);
        assert(decimal(n).drop_last() =~= decimal(n / 10));
    } else {
        assert(decimal(n).drop_last() =~= Seq::<char>::empty());
        assert(decimal_value(decimal(n).drop_last()) == 0);
    }
}

/// `s` with zeros in front up to a width of `width`.
pub open spec fn zeros(s: Seq<char>, width: int) -> Seq<char>
    decreases width - s.len(),
{
    if s.len() >= width {
        s
    } else {
        zeros(seq!['0'] + s, width)
    }
}

/// An integer in decimal with zeros up to a width of `width`, of which a
/// minus sign takes one place.
pub open spec fn padded(n: int, width: int) -> Seq<char> {
    if n < 0 {
        seq!['-'] + zeros(decimal((-n) as nat), width - 1)
    } else {
        zeros(decimal(n as nat), width)
    }
}

/// A number of at most two digits, with zeros up to a width of two.
pub proof fn lemma_padded_two(n: int)
    requires
        0 <= n < 100,
    ensures
        padded(n, 2) == seq![digit_char(n / 10), digit_char(n % 10)],
{
    reveal_with_fuel(decimal, 2);
    reveal_with_fuel(zeros, 3);
    assert(padded(n, 2) =~= seq![digit_char(n / 10), digit_char(n % 10)]);
}

/// A number of at most four digits, with zeros up to a width of four.
pub proof fn lemma_padded_four(n: int)
    requires
        0 <= n < 10_000,
    ensures
        padded(n, 4) == seq![
            digit_char(n / 1000),
            digit_char(n / 100 % 10),
            digit_char(n / 10 % 10),
            digit_char(n % 10),
        ],
{
    reveal_with_fuel(decimal, 4);
    reveal_with_fuel(zeros, 5);
    assert(n / 10 / 10 == n / 100 && n / 10 / 10 / 10 == n / 1000);
    assert(padded(n, 4) =~= seq![
        digit_char(n / 1000),
        digit_char(n / 100 % 10),
        digit_char(n / 10 % 10),
        digit_char(n % 10),
    ]);
}

/// `n` in decimal, with zeros up to a width of `width`.
pub fn padded_text(n: i64, width: usize) -> (r: String)
    requires
        n > i64::MIN,
        1 <= width <= 8,
    ensures
        r@ == padded(n as int, width as int),
{
    let negative = n < 0;
    let magnitude: u64 = if negative {
        (-n) as u64
    } else {
        n as u64
    };
    let field: usize = if negative {
        width - 1
    } else {
        width
    };
    let mut body = decimal_text(magnitude);
    while body.as_str().unicode_len() < field
        invariant
            zeros(decimal(magnitude as nat), field as int) == zeros(body@, field as int),
        decreases field - body@.len(),
    {
        let mut next = "0".to_string();
        proof {
            reveal_strlit("0");
        }
        assert(next@ =~= seq!['0']);
        next.append(body.as_str());
        body = next;
    }
    if negative {
        let mut r = "-".to_string();
        proof {
            reveal_strlit("-");
        }
        assert(r@ =~= seq!['-']);
        r.append(body.as_str());
        r
    } else {
        body
    }
}

/// The two hexadecimal digits of each byte, in lower case.
pub open spec fn hex(bytes: Seq<u8>) -> Seq<char>
    decreases bytes.len(),
{
    if bytes.len() == 0 {
        Seq::empty()
    } else {
        hex(bytes.drop_last()).push(digit_char(bytes.last() as int / 16)).push(
            digit_char(bytes.last() as int % 16),
        )
    }
}

/// The bytes in hexadecimal.
pub fn hex_text(bytes: &[u8]) -> (r: String)
    ensures
        r@ == hex(bytes@),
{
    let mut r = String::new();
    assert(r@ =~= hex(bytes@.take(0)));
    for i in 0..bytes.len()
        invariant
            r@ == hex(bytes@.take(i as int)),
    {
        let b = bytes[i];
        assert(bytes@.take(i + 1).drop_last() == bytes@.take(i as int));
        r.push(char_of_digit(b / 16));
        r.push(char_of_digit(b % 16));
    }
    assert(bytes@.take(bytes@.len() as int) == bytes@);
    r
}

/// The hexadecimal text of bytes has two characters for each.
pub proof fn lemma_hex_length(bytes: Seq<u8>)
    ensures
        hex(bytes).len() == 2 * bytes.len(),
    decreases bytes.len(),
{
    if bytes.len() > 0 {
        lemma_hex_length(bytes.drop_last());
    }
}

/// Whether all of `s` are decimal digits.
pub open spec fn all_digits(s: Seq<char>) -> bool {
    forall|i: int| 0 <= i < s.len() ==> is_digit(#[trigger] s[i])
}

/// The integer that a text writes: decimal digits, at least one, with at most
/// one sign before them.
pub open spec fn integer_value(s: Seq<char>) -> Option<int> {
    if s.len() > 0 && (s[0] == '+' || s[0] == '-') {
        if s.len() > 1 && all_digits(s.skip(1)) {
            if s[0] == '-' {
                Some(-decimal_value(s.skip(1)))
            } else {
                Some(decimal_value(s.skip(1)))
            }
        } else {
            None
        }
    } else if s.len() > 0 && all_digits(s) {
        Some(decimal_value(s))
    } else {
        None
    }
}

/// A short text of digits writes a small number.
pub proof fn lemma_decimal_value_bound(s: Seq<char>)
    requires
        all_digits(s),
        s.len() <= 8,
    ensures
        0 <= decimal_value(s) < 100_000_000,
        s.len() < 8 ==> decimal_value(s) < 10_000_000,
        s.len() < 7 ==> decimal_value(s) < 1_000_000,
        s.len() < 6 ==> decimal_value(s) < 100_000,
        s.len() < 5 ==> decimal_value(s) < 10_000,
        s.len() < 4 ==> decimal_value(s) < 1_000,
        s.len() < 3 ==> decimal_value(s) < 100,
        s.len() < 2 ==> decimal_value(s) < 10,
        s.len() < 1 ==> decimal_value(s) < 1,
    decreases s.len(),
{
    if s.len() > 0 {
        assert(is_digit(s[s.len() - 1]));
        assert forall|i: int| 0 <= i < s.drop_last().len() implies is_digit(
            #[trigger] s.drop_last()[i],
        ) by {
            assert(is_digit(s[i]));
        }
        lemma_decimal_value_bound(s.drop_last());
    }
}

/// The number that eight or fewer digits write, when all of them are digits.
fn digits_value(s: &[char]) -> (r: Option<i64>)
    requires
        s@.len() <= 8,
    ensures
        r is Some <==> all_digits(s@),
        r matches Some(v) ==> v == decimal_value(s@) && 0 <= v < 100_000_000,
{
    let mut v: i64 = 0;
    assert(decimal_value(s@.take(0)) == 0);
    for i in 0..s.len()
        invariant
            s@.len() <= 8,
            all_digits(s@.take(i as int)),
            v == decimal_value(s@.take(i as int)),
            0 <= v < 100_000_000,
    {
        if !digit(s[i]) {
            assert(!is_digit(s@[i as int]));
            return None;
        }
        assert(s@.take(i + 1).drop_last() == s@.take(i as int));
        assert(all_digits(s@.take(i + 1))) by {
            assert forall|j: int| 0 <= j < i + 1 implies is_digit(#[trigger] s@.take(i + 1)[j]) by {
                if j < i {
                    assert(is_digit(s@.take(i as int)[j]));
                }
            }
        }
        proof {
            lemma_decimal_value_bound(s@.take(i + 1));
        }
        let d: u8 = s[i] as u8 - 48;
        v = v * 10 + d as i64;
    }
    assert(s@.take(s@.len() as int) == s@);
    Some(v)
}

/// The integer that a text of at most eight characters writes.
pub fn short_integer(s: &[char]) -> (r: Option<i64>)
    requires
        s@.len() <= 8,
    ensures
        r is Some <==> integer_value(s@) is Some,
        r matches Some(v) ==> integer_value(s@) == Some(v as int) && -100_000_000 < v < 100_000_000,
{
    if s.len() == 0 {
        return None;
    }
    if s[0] == '+' || s[0] == '-' {
        if s.len() == 1 {
            return None;
        }
        let rest = crate::text::tail(s, 1);
        match digits_value(rest) {
            Some(v) => {
                if s[0] == '-' {
                    Some(-v)
                } else {
                    Some(v)
                }
            },
            None => None,
        }
    } else {
        digits_value(s)
    }
}

}
