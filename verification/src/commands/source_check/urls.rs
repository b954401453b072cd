//! URLs as texts: hosts and percent-encoding.

use vstd::prelude::*;
use vstd::string::*;
use vstd::utf8::*;

use crate::text::{
    chars_of, find, first_of, head, is_one_of, lemma_first_of, opt_text, tail, text_of,
};

verus! {

/// A byte that stands for itself in a URL.
pub open spec fn is_unreserved(b: u8) -> bool {
    ||| 65 <= b <= 90
    ||| 97 <= b <= 122
    ||| 48 <= b <= 57
    ||| b == 45
    ||| b == 95
    ||| b == 46
    ||| b == 126
}

/// An upper-case hexadecimal digit.
pub open spec fn upper_digit(n: int) -> char {
    if n < 10 {
        (48 + n) as char
    } else {
        (55 + n) as char
    }
}

/// A byte in a URL: itself, or `%` and two hexadecimal digits.
pub open spec fn encoded_byte(b: u8) -> Seq<char> {
    if is_unreserved(b) {
        seq![b as char]
    } else {
        seq!['%', upper_digit(b as int / 16), upper_digit(b as int % 16)]
    }
}

/// Bytes in a URL.
pub open spec fn encoded(bytes: Seq<u8>) -> Seq<char>
    decreases bytes.len(),
{
    if bytes.len() == 0 {
        Seq::empty()
    } else {
        encoded(bytes.drop_last()) + encoded_byte(bytes.last())
    }
}

/// A text in a URL: its UTF-8 bytes, encoded.
pub open spec fn percent_encoded(s: Seq<char>) -> Seq<char> {
    encoded(encode_utf8(s))
}

fn char_of_upper_digit(n: u8) -> (r: char)
    requires
        n < 16,
    ensures
        r == upper_digit(n as int),
{
    if n < 10 {
        (48 + n) as char
    } else {
        (55 + n) as char
    }
}

/// A text as it stands in the query of a URL.
pub fn percent_encode(s: &str) -> (r: String)
    ensures
        r@ == percent_encoded(s@),
{
    let bytes = s.as_bytes();
    let mut r = String::new();
    assert(bytes@.take(0) =~= Seq::<u8>::empty());
    for i in 0..bytes.len()
        invariant
            r@ == encoded(bytes@.take(i as int)),
    {
        assert(bytes@.take(i + 1).drop_last() == bytes@.take(i as int));
        assert(bytes@.take(i + 1).last() == bytes@[i as int]);
        let b: u8 = bytes[i];
        let ghost was = r@;
        if (65 <= b && b <= 90) || (97 <= b && b <= 122) || (48 <= b && b <= 57) || b == 45 || b
            == 95 || b == 46 || b == 126 {
            r.push(b as char);
            assert(r@ =~= was + encoded_byte(b));
        } else {
            r.push('%');
            r.push(char_of_upper_digit(b / 16));
            r.push(char_of_upper_digit(b % 16));
            assert(r@ =~= was + encoded_byte(b));
        }
    }
    assert(bytes@.take(bytes@.len() as int) == bytes@);
    r
}

/// The beginning of a text up to the first character of a set.
pub open spec fn up_to(s: Seq<char>, set: Seq<char>) -> Seq<char>
    decreases s.len(),
{
    if s.len() == 0 || set.contains(s[0]) {
        Seq::empty()
    } else {
        seq![s[0]] + up_to(s.skip(1), set)
    }
}

/// The host of a URL: what stands between its `://` and the next of `/`, `?`
/// and `#` (or another `://`).
pub open spec fn host(url: Seq<char>) -> Option<Seq<char>> {
    match first_of(url, "://"@) {
        None => None,
        Some(i) => {
            let rest = url.skip(i + 3);
            let part = match first_of(rest, "://"@) {
                Some(j) => rest.take(j),
                None => rest,
            };
            Some(up_to(part, "/?#"@))
        },
    }
}

fn chars_up_to(s: &[char], set: &str) -> (r: Vec<char>)
    ensures
        r@ == up_to(s@, set@),
{
    let mut r: Vec<char> = Vec::new();
    assert(s@.skip(0) == s@);
    for i in 0..s.len()
        invariant
            up_to(s@, set@) == r@ + up_to(s@.skip(i as int), set@),
    {
        let ghost was = r@;
        assert(s@.skip(i as int)[0] == s@[i as int]);
        if is_one_of(s[i], set) {
            assert(up_to(s@, set@) =~= r@);
            return r;
        }
        assert(s@.skip(i as int).skip(1) == s@.skip(i + 1));
        r.push(s[i]);
        assert(r@ + up_to(s@.skip(i + 1), set@) =~= was + (seq![s@[i as int]] + up_to(
            s@.skip(i + 1),
            set@,
        )));
    }
    assert(r@ + up_to(s@.skip(s@.len() as int), set@) =~= r@);
    r
}

/// The host of a URL.
pub fn host_of(url: &str) -> (r: Option<String>)
    ensures
        opt_text(r) == host(url@),
{
    let cs = chars_of(url);
    proof {
        reveal_strlit("://");
        lemma_first_of(cs@, "://"@);
    }
    match find(cs.as_slice(), "://") {
        None => None,
        Some(i) => {
            let rest = tail(tail(cs.as_slice(), i), 3);
            assert(rest@ =~= cs@.skip(i + 3));
            proof {
                lemma_first_of(rest@, "://"@);
            }
            let part = match find(rest, "://") {
                Some(j) => head(rest, j),
                None => rest,
            };
            Some(text_of(chars_up_to(part, "/?#").as_slice()))
        },
    }
}

/// The first eighty characters of a text, with an ellipsis when there are
/// more.
pub open spec fn clipped(s: Seq<char>) -> Seq<char> {
    if s.len() > 80 {
        s.take(80).push('…')
    } else {
        s
    }
}

/// The first eighty characters of a text, with an ellipsis when there are
/// more.
pub fn clip(s: &str) -> (r: String)
    ensures
        r@ == clipped(s@),
{
    let cs = chars_of(s);
    if cs.len() > 80 {
        let mut r = text_of(head(cs.as_slice(), 80));
        r.push('…');
        r
    } else {
        text_of(cs.as_slice())
    }
}

}
