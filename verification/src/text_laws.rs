//! What holds of texts and their parts.

use vstd::prelude::*;
use vstd::utf8::{encode_scalar, encode_utf8};

use crate::number::{digit_char, hex, lemma_hex_length};
use crate::order::before;
use crate::text::{
    ascii_lower, concat, digit_value, ends, is_control_char, is_digit, is_white_space, join,
    lemma_until, lines, split_on, starts, trim, trim_end, trim_start, until, utf8_length, utf8_width,
    without_cr, word_length, words,
};

verus! {

// ---------------------------------------------------------------------------
// Characters
// ---------------------------------------------------------------------------

/// The white space of Unicode, by code point.
pub proof fn white_space_by_code_point(c: char)
    ensures
        is_white_space(c) <==> {
            let n = c as u32;
            ||| 9 <= n <= 13
            ||| n == 32
            ||| n == 0x85
            ||| n == 0xa0
            ||| n == 0x1680
            ||| 0x2000 <= n <= 0x200a
            ||| n == 0x2028
            ||| n == 0x2029
            ||| n == 0x202f
            ||| n == 0x205f
            ||| n == 0x3000
        },
{
}

/// The control characters, digits and capital letters of ASCII, by code point.
pub proof fn characters_by_code_point(c: char)
    ensures
        is_control_char(c) <==> (c as u32) < 32 || 127 <= c as u32 <= 159,
        is_digit(c) <==> 48 <= c as u32 <= 57,
        is_digit(c) ==> digit_value(c) == c as u32 - 48,
        65 <= c as u32 <= 90 ==> ascii_lower(c) as u32 == c as u32 + 32,
        !(65 <= c as u32 <= 90) ==> ascii_lower(c) == c,
{
}

proof fn lemma_width(c: char)
    ensures
        encode_scalar(c as u32).len() == utf8_width(c),
{
}

/// The length of a text in bytes is that of its UTF-8 encoding.
pub proof fn lengths_are_those_of_utf8(s: Seq<char>)
    ensures
        utf8_length(s) == encode_utf8(s).len(),
    decreases s.len(),
{
    if s.len() > 0 {
        assert(s.drop_first() =~= s.skip(1));
        lengths_are_those_of_utf8(s.skip(1));
        lemma_width(s[0]);
        assert(encode_utf8(s) == encode_scalar(s[0] as u32) + encode_utf8(s.skip(1)));
    }
}

// ---------------------------------------------------------------------------
// Parts
// ---------------------------------------------------------------------------

/// A text begins with another just if something, maybe nothing, follows it
/// there, and ends with another just if something stands before it.
pub proof fn beginnings_and_ends(s: Seq<char>, p: Seq<char>)
    ensures
        starts(s, p) <==> exists|rest: Seq<char>| s == #[trigger] (p + rest),
        ends(s, p) <==> exists|rest: Seq<char>| s == #[trigger] (rest + p),
{
    if starts(s, p) {
        assert(s =~= p + s.skip(p.len() as int));
    }
    if exists|rest: Seq<char>| s == #[trigger] (p + rest) {
        let rest = choose|rest: Seq<char>| s == #[trigger] (p + rest);
        assert(s.take(p.len() as int) =~= p);
    }
    if ends(s, p) {
        assert(s =~= s.take(s.len() - p.len()) + p);
    }
    if exists|rest: Seq<char>| s == #[trigger] (rest + p) {
        let rest = choose|rest: Seq<char>| s == #[trigger] (rest + p);
        assert(s.skip(s.len() - p.len()) =~= p);
    }
}

/// All of a text is white space.
pub open spec fn blank(s: Seq<char>) -> bool {
    forall|i: int| 0 <= i < s.len() ==> is_white_space(#[trigger] s[i])
}

/// Trimming takes white space away at both ends, and all of it.
pub proof fn trimming_takes_white_space_away(a: Seq<char>, s: Seq<char>, b: Seq<char>)
    requires
        blank(a),
        blank(b),
        s.len() > 0 ==> !is_white_space(s[0]) && !is_white_space(s.last()),
    ensures
        trim(a + s + b) == s,
{
    if s.len() > 0 {
        lemma_trim_start(a, s + b);
        assert(a + s + b =~= a + (s + b));
        lemma_trim_end(s, b);
    } else {
        assert(a + s + b =~= a + b);
        assert(blank(a + b));
        assert((a + b) + Seq::<char>::empty() =~= a + b);
        lemma_trim_start(a + b, Seq::empty());
        assert(s =~= Seq::empty());
    }
}

proof fn lemma_trim_start(a: Seq<char>, s: Seq<char>)
    requires
        blank(a),
        s.len() > 0 ==> !is_white_space(s[0]),
    ensures
        trim_start(a + s) == s,
    decreases a.len(),
{
    if a.len() > 0 {
        assert(is_white_space(a[0]));
        assert((a + s).skip(1) =~= a.skip(1) + s);
        assert forall|i: int| 0 <= i < a.skip(1).len() implies is_white_space(
            #[trigger] a.skip(1)[i],
        ) by {
            assert(is_white_space(a[i + 1]));
        }
        lemma_trim_start(a.skip(1), s);
    } else {
        assert(a + s =~= s);
    }
}

proof fn lemma_trim_end(s: Seq<char>, b: Seq<char>)
    requires
        blank(b),
        s.len() > 0 ==> !is_white_space(s.last()),
    ensures
        trim_end(s + b) == s,
    decreases b.len(),
{
    if b.len() > 0 {
        assert(is_white_space(b[b.len() - 1]));
        assert((s + b).drop_last() =~= s + b.drop_last());
        assert forall|i: int| 0 <= i < b.drop_last().len() implies is_white_space(
            #[trigger] b.drop_last()[i],
        ) by {
            assert(is_white_space(b[i]));
        }
        lemma_trim_end(s, b.drop_last());
    } else {
        assert(s + b =~= s);
    }
}

/// The parts between the occurrences of a character do not hold it, and the
/// text is made of them with the character between each two.
pub proof fn parts_make_up_the_text(s: Seq<char>, c: char)
    ensures
        split_on(s, c).len() > 0,
        forall|i: int| 0 <= i < split_on(s, c).len() ==> !(#[trigger] split_on(s, c)[i]).contains(c),
        join(split_on(s, c), seq![c]) == s,
    decreases s.len(),
{
    let n = until(s, c) as int;
    lemma_until(s, c);
    if n >= s.len() {
        assert(!s.contains(c));
    } else {
        let rest = s.skip(n + 1);
        parts_make_up_the_text(rest, c);
        let parts = split_on(rest, c);
        let all = split_on(s, c);
        assert(all == seq![s.take(n)] + parts);
        assert forall|i: int| 0 <= i < all.len() implies !(#[trigger] all[i]).contains(c) by {
            if i == 0 {
                assert(!s.take(n).contains(c));
            } else {
                assert(all[i] == parts[i - 1]);
            }
        }
        lemma_join_front(s.take(n), parts, seq![c]);
        assert(s =~= s.take(n) + seq![c] + rest);
    }
}

proof fn lemma_join_front(x: Seq<char>, list: Seq<Seq<char>>, sep: Seq<char>)
    requires
        list.len() > 0,
    ensures
        join(seq![x] + list, sep) == x + sep + join(list, sep),
    decreases list.len(),
{
    let all = seq![x] + list;
    if list.len() == 1 {
        assert(all.drop_last() =~= seq![x]);
        assert(join(seq![x], sep) == x);
    } else {
        assert(all.drop_last() =~= seq![x] + list.drop_last());
        lemma_join_front(x, list.drop_last(), sep);
        assert(x + sep + join(list.drop_last(), sep) + sep + list.last() =~= x + sep + (join(
            list.drop_last(),
            sep,
        ) + sep + list.last()));
    }
}

/// A text without its white space.
pub open spec fn unspaced(s: Seq<char>) -> Seq<char>
    decreases s.len(),
{
    if s.len() == 0 {
        Seq::empty()
    } else if is_white_space(s[0]) {
        unspaced(s.skip(1))
    } else {
        seq![s[0]] + unspaced(s.skip(1))
    }
}

proof fn lemma_word(s: Seq<char>)
    ensures
        word_length(s) <= s.len(),
        forall|i: int| 0 <= i < word_length(s) ==> !is_white_space(#[trigger] s[i]),
        word_length(s) < s.len() ==> is_white_space(s[word_length(s) as int]),
        unspaced(s) == s.take(word_length(s) as int) + unspaced(s.skip(word_length(s) as int)),
    decreases s.len(),
{
    let n = word_length(s) as int;
    if s.len() > 0 && !is_white_space(s[0]) {
        let rest = s.skip(1);
        lemma_word(rest);
        assert forall|i: int| 0 <= i < n implies !is_white_space(#[trigger] s[i]) by {
            if i > 0 {
                assert(rest[i - 1] == s[i]);
            }
        }
        assert(rest.skip(n - 1) =~= s.skip(n));
        assert(s.take(n) =~= seq![s[0]] + rest.take(n - 1));
        assert(seq![s[0]] + (rest.take(n - 1) + unspaced(s.skip(n))) =~= s.take(n) + unspaced(
            s.skip(n),
        ));
    } else {
        assert(s.skip(0) =~= s);
        assert(s.take(0) + unspaced(s) =~= unspaced(s));
    }
}

proof fn lemma_unspaced_start(s: Seq<char>)
    ensures
        unspaced(trim_start(s)) == unspaced(s),
        trim_start(s).len() <= s.len(),
        trim_start(s).len() > 0 ==> !is_white_space(trim_start(s)[0]),
    decreases s.len(),
{
    if s.len() > 0 && is_white_space(s[0]) {
        lemma_unspaced_start(s.skip(1));
    }
}

proof fn lemma_concat_front(x: Seq<char>, list: Seq<Seq<char>>)
    ensures
        concat(seq![x] + list) == x + concat(list),
    decreases list.len(),
{
    let all = seq![x] + list;
    if list.len() == 0 {
        assert(all.drop_last() =~= Seq::empty());
        assert(concat(all.drop_last()) =~= Seq::empty());
        assert(all.last() == x);
        assert(Seq::<char>::empty() + x =~= x);
        assert(x + Seq::<char>::empty() =~= x);
    } else {
        assert(all.drop_last() =~= seq![x] + list.drop_last());
        lemma_concat_front(x, list.drop_last());
        assert(x + concat(list.drop_last()) + list.last() =~= x + (concat(list.drop_last())
            + list.last()));
    }
}

/// The words of a text are not empty and hold no white space, and together
/// they hold all of it that is not white space, in its order.
pub proof fn words_hold_all_but_white_space(s: Seq<char>)
    ensures
        forall|i: int| 0 <= i < words(s).len() ==> (#[trigger] words(s)[i]).len() > 0,
        forall|i: int, k: int|
            0 <= i < words(s).len() && 0 <= k < words(s)[i].len() ==> !is_white_space(
                #[trigger] words(s)[i][k],
            ),
        concat(words(s)) == unspaced(s),
    decreases s.len(),
{
    let t = trim_start(s);
    lemma_unspaced_start(s);
    if t.len() > 0 {
        let n = word_length(t) as int;
        lemma_word(t);
        assert(n > 0);
        let rest = t.skip(n);
        words_hold_all_but_white_space(rest);
        let all = words(s);
        let more = words(rest);
        assert(all == seq![t.take(n)] + more);
        assert forall|i: int| 0 <= i < all.len() implies (#[trigger] all[i]).len() > 0 by {
            if i > 0 {
                assert(all[i] == more[i - 1]);
            }
        }
        assert forall|i: int, k: int|
            0 <= i < all.len() && 0 <= k < all[i].len() implies !is_white_space(
            #[trigger] all[i][k],
        ) by {
            if i > 0 {
                assert(all[i] == more[i - 1]);
                assert(!is_white_space(more[i - 1][k]));
            } else {
                assert(all[0][k] == t[k]);
            }
        }
        lemma_concat_front(t.take(n), more);
    }
}

/// A line ends at a newline, and a carriage return before it belongs to the
/// line end; what follows the newline is cut into lines likewise.
pub proof fn a_line_ends_at_its_newline(line: Seq<char>, rest: Seq<char>)
    requires
        !line.contains('\n'),
    ensures
        line.len() == 0 || line.last() != '\r' ==> {
            &&& lines(line + seq!['\n'] + rest) == seq![line] + lines(rest)
            &&& lines(line + seq!['\r', '\n'] + rest) == seq![line] + lines(rest)
        },
        line.len() > 0 ==> lines(line) == seq![line],
{
    let s = line + seq!['\n'] + rest;
    lemma_newline(line, rest);
    if line.len() == 0 || line.last() != '\r' {
        let longer = line.push('\r');
        assert(!longer.contains('\n')) by {
            if longer.contains('\n') {
                let k = choose|k: int| 0 <= k < longer.len() && longer[k] == '\n';
                assert(line[k] == '\n');
            }
        }
        lemma_newline(longer, rest);
        assert(line + seq!['\r', '\n'] + rest =~= longer + seq!['\n'] + rest);
        assert(longer.drop_last() =~= line);
    }
    if line.len() > 0 {
        lemma_until(line, '\n');
        let n = until(line, '\n') as int;
        if n < line.len() {
            assert(line.contains(line[n]));
        }
    }
}

proof fn lemma_newline(line: Seq<char>, rest: Seq<char>)
    requires
        !line.contains('\n'),
    ensures
        lines(line + seq!['\n'] + rest) == seq![without_cr(line)] + lines(rest),
{
    let s = line + seq!['\n'] + rest;
    lemma_until(s, '\n');
    let n = until(s, '\n') as int;
    assert(s[line.len() as int] == '\n');
    assert(n == line.len()) by {
        if n < line.len() {
            assert(line.contains(s[n]));
        }
    }
    assert(s.take(n) =~= line);
    assert(s.skip(n + 1) =~= rest);
}

// ---------------------------------------------------------------------------
// Order and digits
// ---------------------------------------------------------------------------

/// Texts are ordered by the first character in which they differ, and a text
/// comes before each that it begins.
pub proof fn texts_are_ordered_by_characters(
    front: Seq<char>,
    a: char,
    b: char,
    p: Seq<char>,
    q: Seq<char>,
)
    requires
        a < b,
    ensures
        before(front + seq![a] + p, front + seq![b] + q),
        !before(front + seq![b] + q, front + seq![a] + p),
        before(front, front + seq![a] + p),
        !before(front + seq![a] + p, front),
        !before(front, front),
    decreases front.len(),
{
    let x = front + seq![a] + p;
    let y = front + seq![b] + q;
    if front.len() > 0 {
        let rest = front.skip(1);
        texts_are_ordered_by_characters(rest, a, b, p, q);
        assert(x.skip(1) =~= rest + seq![a] + p);
        assert(y.skip(1) =~= rest + seq![b] + q);
        assert(x[0] == front[0] && y[0] == front[0]);
    } else {
        assert(x[0] == a && y[0] == b);
    }
}

/// A byte is written as two hexadecimal digits, the high one first.
pub proof fn bytes_are_written_in_two_digits(bytes: Seq<u8>, i: int)
    requires
        0 <= i < bytes.len(),
    ensures
        hex(bytes).len() == 2 * bytes.len(),
        hex(bytes)[2 * i] == digit_char(bytes[i] as int / 16),
        hex(bytes)[2 * i + 1] == digit_char(bytes[i] as int % 16),
    decreases bytes.len(),
{
    let front = bytes.drop_last();
    if i < front.len() {
        bytes_are_written_in_two_digits(front, i);
        assert(front[i] == bytes[i]);
    } else {
        lemma_hex_length(front);
    }
}

/// The digits up to fifteen, by code point.
pub proof fn digits_by_code_point(d: int)
    requires
        0 <= d < 16,
    ensures
        d < 10 ==> digit_char(d) as u32 == 48 + d,
        d >= 10 ==> digit_char(d) as u32 == 97 + d - 10,
{
}

}
