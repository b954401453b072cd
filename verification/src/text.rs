//! Texts as sequences of characters: what the line, trim, search, split and
//! join operations mean, and executable versions proved to compute them.

use vstd::prelude::*;
use vstd::slice::{slice_subrange, slice_to_vec};
use vstd::string::*;

verus! {

// ---------------------------------------------------------------------------
// Standard library operations without a specification elsewhere
// ---------------------------------------------------------------------------

/// `String::push` appends one character at the end.
pub assume_specification [ String::push ](s: &mut String, c: char)
    ensures
        final(s)@ == old(s)@.push(c),
;

/// `str` equality holds exactly when the two texts have the same characters.
pub assume_specification [ <str as PartialEq>::eq ](a: &str, b: &str) -> (r: bool)
    ensures
        r == (a@ == b@),
;

// ---------------------------------------------------------------------------
// Conversions
// ---------------------------------------------------------------------------

/// The characters of a text, in order.
pub fn chars_of(s: &str) -> (v: Vec<char>)
    ensures
        v@ == s@,
{
    let mut v: Vec<char> = Vec::new();
    for c in it: s.chars()
        invariant
            v@ == s@.take(it.index()),
            it.seq() == s@,
    {
        v.push(c);
    }
    v
}

/// The text made of the given characters.
pub fn text_of(v: &[char]) -> (s: String)
    ensures
        s@ == v@,
{
    let mut s = String::new();
    for i in 0..v.len()
        invariant
            s@ == v@.take(i as int),
    {
        s.push(v[i]);
    }
    s
}

/// Appends characters to a text.
pub fn append_chars(s: &mut String, v: &[char])
    ensures
        final(s)@ == old(s)@ + v@,
{
    let ghost before = s@;
    for i in 0..v.len()
        invariant
            s@ == before + v@.take(i as int),
    {
        s.push(v[i]);
    }
    assert(v@.take(v@.len() as int) == v@);
}

/// Whether two texts are the same.
pub fn same(a: &str, b: &str) -> (r: bool)
    ensures
        r == (a@ == b@),
{
    *a == *b
}

/// Whether two character sequences are the same.
pub fn same_chars(a: &[char], b: &[char]) -> (r: bool)
    ensures
        r == (a@ == b@),
{
    if a.len() != b.len() {
        return false;
    }
    for i in 0..a.len()
        invariant
            a@.len() == b@.len(),
            forall|j: int| 0 <= j < i ==> a@[j] == b@[j],
    {
        if a[i] != b[i] {
            return false;
        }
    }
    assert(a@ == b@);
    true
}

/// The part of `s` from `from` on.
pub fn tail<'a>(s: &'a [char], from: usize) -> (r: &'a [char])
    requires
        from <= s@.len(),
    ensures
        r@ == s@.skip(from as int),
{
    let r = slice_subrange(s, from, s.len());
    assert(r@ == s@.skip(from as int));
    r
}

/// The first `to` characters of `s`.
pub fn head<'a>(s: &'a [char], to: usize) -> (r: &'a [char])
    requires
        to <= s@.len(),
    ensures
        r@ == s@.take(to as int),
{
    let r = slice_subrange(s, 0, to);
    assert(r@ == s@.take(to as int));
    r
}

/// The texts held by a list of strings.
pub open spec fn texts(v: Seq<String>) -> Seq<Seq<char>> {
    Seq::new(v.len(), |i: int| v[i]@)
}

/// The texts held by a list of character lists.
pub open spec fn char_texts(v: Seq<Vec<char>>) -> Seq<Seq<char>> {
    Seq::new(v.len(), |i: int| v[i]@)
}

/// The text held by an optional string.
pub open spec fn opt_text(o: Option<String>) -> Option<Seq<char>> {
    match o {
        Some(s) => Some(s@),
        None => None,
    }
}

/// What an optional borrowed text holds.
pub open spec fn opt_str(o: Option<&str>) -> Option<Seq<char>> {
    match o {
        Some(s) => Some(s@),
        None => None,
    }
}

/// Appending a string appends its text.
pub proof fn lemma_push_text(v: Seq<String>, s: String)
    ensures
        texts(v.push(s)) == texts(v).push(s@),
{
    assert(texts(v.push(s)) =~= texts(v).push(s@));
}

/// One more element of a prefix.
pub proof fn lemma_take_next<A>(s: Seq<A>, i: int)
    requires
        0 <= i < s.len(),
    ensures
        s.take(i + 1) == s.take(i).push(s[i]),
{
    assert(s.take(i + 1) =~= s.take(i).push(s[i]));
}

/// A copy of an optional text.
pub fn clone_opt(o: &Option<String>) -> (r: Option<String>)
    ensures
        opt_text(r) == opt_text(*o),
{
    match o {
        Some(s) => Some(s.clone()),
        None => None,
    }
}

/// A copy of a list of texts.
pub fn clone_texts(v: &Vec<String>) -> (r: Vec<String>)
    ensures
        texts(r@) == texts(v@),
{
    let mut r: Vec<String> = Vec::new();
    for i in 0..v.len()
        invariant
            texts(r@) == texts(v@).take(i as int),
    {
        proof {
            lemma_push_text(r@, v@[i as int]);
            lemma_take_next(texts(v@), i as int);
        }
        r.push(v[i].clone());
    }
    assert(texts(v@).take(v@.len() as int) == texts(v@));
    r
}

/// Whether a list of texts holds `t`.
pub fn contains_text(v: &Vec<String>, t: &str) -> (r: bool)
    ensures
        r == texts(v@).contains(t@),
{
    for i in 0..v.len()
        invariant
            forall|j: int| 0 <= j < i ==> texts(v@)[j] != t@,
    {
        if same(v[i].as_str(), t) {
            assert(texts(v@)[i as int] == t@);
            return true;
        }
    }
    false
}

/// A list with `x` at its end, unless it is there already.
pub open spec fn push_new(list: Seq<Seq<char>>, x: Seq<char>) -> Seq<Seq<char>> {
    if list.contains(x) {
        list
    } else {
        list.push(x)
    }
}

/// A list with those of `more` at its end that it does not hold yet.
pub open spec fn append_new(list: Seq<Seq<char>>, more: Seq<Seq<char>>) -> Seq<Seq<char>>
    decreases more.len(),
{
    if more.len() == 0 {
        list
    } else {
        push_new(append_new(list, more.drop_last()), more.last())
    }
}

/// Appending keeps a list free of repeats and adds just what it lacked.
pub proof fn lemma_append_new(list: Seq<Seq<char>>, more: Seq<Seq<char>>)
    ensures
        list.no_duplicates() ==> append_new(list, more).no_duplicates(),
        forall|y: Seq<char>| #[trigger]
            append_new(list, more).contains(y) <==> (list.contains(y) || more.contains(y)),
        list.is_prefix_of(append_new(list, more)),
    decreases more.len(),
{
    if more.len() > 0 {
        let front = more.drop_last();
        lemma_append_new(list, front);
        let mid = append_new(list, front);
        let r = append_new(list, more);
        assert forall|y: Seq<char>| #[trigger] r.contains(y) <==> (list.contains(y)
            || more.contains(y)) by {
            assert(mid.contains(y) <==> (list.contains(y) || front.contains(y)));
            assert(more =~= front.push(more.last()));
            if r.contains(y) && !mid.contains(y) {
                let k = choose|k: int| 0 <= k < r.len() && r[k] == y;
                assert(k == mid.len());
                assert(more[more.len() - 1] == y);
            }
            if mid.contains(y) {
                let k = choose|k: int| 0 <= k < mid.len() && mid[k] == y;
                assert(r[k] == y);
            }
            if front.contains(y) {
                let k = choose|k: int| 0 <= k < front.len() && front[k] == y;
                assert(more[k] == y);
            }
            if more.contains(y) && !front.contains(y) {
                let k = choose|k: int| 0 <= k < more.len() && more[k] == y;
                if k < front.len() {
                    assert(front[k] == y);
                }
                if !mid.contains(y) {
                    assert(r[mid.len() as int] == y);
                }
            }
        }
        assert(list =~= r.take(list.len() as int));
    } else {
        assert(list =~= list.take(list.len() as int));
        assert forall|y: Seq<char>| !(#[trigger] more.contains(y)) by {}
    }
}

/// Appending a second time adds nothing.
pub proof fn lemma_append_new_again(list: Seq<Seq<char>>, more: Seq<Seq<char>>)
    ensures
        append_new(list, append_new(list, more)) == append_new(list, more),
        append_new(list, list) == list,
    decreases more.len(),
{
    lemma_append_prefix(list, list.len());
    assert(list.take(list.len() as int) == list);
    if more.len() > 0 {
        lemma_append_new_again(list, more.drop_last());
        let mid = append_new(list, more.drop_last());
        if !mid.contains(more.last()) {
            assert(mid.push(more.last()).drop_last() =~= mid);
        }
    }
}

proof fn lemma_append_prefix(list: Seq<Seq<char>>, n: nat)
    requires
        n <= list.len(),
    ensures
        append_new(list, list.take(n as int)) == list,
    decreases n,
{
    if n > 0 {
        lemma_append_prefix(list, (n - 1) as nat);
        assert(list.take(n as int).drop_last() =~= list.take(n - 1));
        assert(list[n - 1] == list.take(n as int).last());
    }
}

/// Appends `x` unless it is there already.
pub fn add_new(list: &mut Vec<String>, x: &String)
    ensures
        texts(final(list)@) == push_new(texts(old(list)@), x@),
{
    if !contains_text(list, x.as_str()) {
        proof {
            lemma_push_text(list@, *x);
        }
        let y = x.clone();
        list.push(y);
        assert(texts(list@) =~= texts(old(list)@).push(x@));
    }
}

/// Appends those of `more` that are not there yet.
pub fn add_all_new(list: &mut Vec<String>, more: &Vec<String>)
    ensures
        texts(final(list)@) == append_new(texts(old(list)@), texts(more@)),
{
    let ghost all = texts(more@);
    let ghost start = texts(list@);
    assert(append_new(start, all.take(0)) == start);
    for i in 0..more.len()
        invariant
            all == texts(more@),
            texts(list@) == append_new(start, all.take(i as int)),
    {
        assert(all.take(i + 1).drop_last() == all.take(i as int));
        assert(all.take(i + 1).last() == more@[i as int]@);
        add_new(list, &more[i]);
    }
    assert(all.take(more@.len() as int) == all);
}

// ---------------------------------------------------------------------------
// Characters
// ---------------------------------------------------------------------------

/// The Unicode `White_Space` property.
pub open spec fn is_white_space(c: char) -> bool {
    ||| '\u{9}' <= c && c <= '\u{d}'
    ||| c == ' '
    ||| c == '\u{85}'
    ||| c == '\u{a0}'
    ||| c == '\u{1680}'
    ||| '\u{2000}' <= c && c <= '\u{200a}'
    ||| c == '\u{2028}'
    ||| c == '\u{2029}'
    ||| c == '\u{202f}'
    ||| c == '\u{205f}'
    ||| c == '\u{3000}'
}

/// Whether `c` is white space.
pub fn white_space(c: char) -> (r: bool)
    ensures
        r == is_white_space(c),
{
    ('\u{9}' <= c && c <= '\u{d}') || c == ' ' || c == '\u{85}' || c == '\u{a0}' || c == '\u{1680}'
        || ('\u{2000}' <= c && c <= '\u{200a}') || c == '\u{2028}' || c == '\u{2029}'
        || c == '\u{202f}' || c == '\u{205f}' || c == '\u{3000}'
}

/// The Unicode control characters (general category `Cc`).
pub open spec fn is_control_char(c: char) -> bool {
    c <= '\u{1f}' || ('\u{7f}' <= c && c <= '\u{9f}')
}

/// Whether `c` is a control character.
pub fn control_char(c: char) -> (r: bool)
    ensures
        r == is_control_char(c),
{
    c <= '\u{1f}' || ('\u{7f}' <= c && c <= '\u{9f}')
}

/// An ASCII decimal digit.
pub open spec fn is_digit(c: char) -> bool {
    '0' <= c && c <= '9'
}

/// Whether `c` is an ASCII decimal digit.
pub fn digit(c: char) -> (r: bool)
    ensures
        r == is_digit(c),
{
    '0' <= c && c <= '9'
}

/// The value of an ASCII decimal digit.
pub open spec fn digit_value(c: char) -> int {
    c as u32 - '0' as u32
}

/// The ASCII lower case of a character; other characters are their own.
pub open spec fn ascii_lower(c: char) -> char {
    if 'A' <= c && c <= 'Z' {
        ((c as u32) + 32) as char
    } else {
        c
    }
}

/// The ASCII lower case of `c`.
pub fn to_ascii_lower(c: char) -> (r: char)
    ensures
        r == ascii_lower(c),
{
    if 'A' <= c && c <= 'Z' {
        let b: u8 = c as u8;
        (b + 32) as char
    } else {
        c
    }
}

/// A text in ASCII lower case.
pub open spec fn ascii_lower_text(s: Seq<char>) -> Seq<char> {
    Seq::new(s.len(), |i: int| ascii_lower(s[i]))
}

/// The text of `s` in ASCII lower case.
pub fn lower_chars(s: &[char]) -> (r: Vec<char>)
    ensures
        r@ == ascii_lower_text(s@),
{
    let mut r: Vec<char> = Vec::new();
    for i in 0..s.len()
        invariant
            r@ == ascii_lower_text(s@).take(i as int),
    {
        r.push(to_ascii_lower(s[i]));
    }
    r
}

/// The number of bytes of a character in UTF-8.
pub open spec fn utf8_width(c: char) -> nat {
    if c <= '\u{7f}' {
        1
    } else if c <= '\u{7ff}' {
        2
    } else if c <= '\u{ffff}' {
        3
    } else {
        4
    }
}

/// The number of bytes of a text in UTF-8.
pub open spec fn utf8_length(s: Seq<char>) -> nat
    decreases s.len(),
{
    if s.len() == 0 {
        0
    } else {
        utf8_width(s[0]) + utf8_length(s.skip(1))
    }
}

/// Whether a text takes at least `n` bytes in UTF-8.
pub fn utf8_at_least(s: &[char], n: usize) -> (r: bool)
    ensures
        r == (utf8_length(s@) >= n),
{
    let mut left: usize = n;
    let mut i: usize = 0;
    assert(s@.skip(0) == s@);
    while i < s.len() && left > 0
        invariant
            i <= s@.len(),
            left <= n,
            left > 0 ==> utf8_length(s@) - utf8_length(s@.skip(i as int)) == n - left,
            left == 0 ==> utf8_length(s@) >= n,
        decreases s@.len() - i,
    {
        let c = s[i];
        let w: usize = if c <= '\u{7f}' {
            1
        } else if c <= '\u{7ff}' {
            2
        } else if c <= '\u{ffff}' {
            3
        } else {
            4
        };
        assert(s@.skip(i as int).skip(1) == s@.skip(i + 1));
        if w >= left {
            left = 0;
        } else {
            left = left - w;
        }
        i = i + 1;
    }
    left == 0
}

// ---------------------------------------------------------------------------
// Trimming
// ---------------------------------------------------------------------------

/// `s` without its leading white space.
pub open spec fn trim_start(s: Seq<char>) -> Seq<char>
    decreases s.len(),
{
    if s.len() > 0 && is_white_space(s[0]) {
        trim_start(s.skip(1))
    } else {
        s
    }
}

/// `s` without its trailing white space.
pub open spec fn trim_end(s: Seq<char>) -> Seq<char>
    decreases s.len(),
{
    if s.len() > 0 && is_white_space(s.last()) {
        trim_end(s.drop_last())
    } else {
        s
    }
}

/// `s` without its leading and trailing white space.
pub open spec fn trim(s: Seq<char>) -> Seq<char> {
    trim_end(trim_start(s))
}

/// `s` without its leading white space.
pub fn trimmed_start<'a>(s: &'a [char]) -> (r: &'a [char])
    ensures
        r@ == trim_start(s@),
{
    let mut i: usize = 0;
    assert(s@.skip(0) == s@);
    while i < s.len() && white_space(s[i])
        invariant
            i <= s@.len(),
            trim_start(s@) == trim_start(s@.skip(i as int)),
        decreases s@.len() - i,
    {
        assert(s@.skip(i as int).skip(1) == s@.skip(i + 1));
        i = i + 1;
    }
    tail(s, i)
}

/// `s` without its trailing white space.
pub fn trimmed_end<'a>(s: &'a [char]) -> (r: &'a [char])
    ensures
        r@ == trim_end(s@),
{
    let mut n: usize = s.len();
    assert(s@.take(n as int) == s@);
    while n > 0 && white_space(s[n - 1])
        invariant
            n <= s@.len(),
            trim_end(s@) == trim_end(s@.take(n as int)),
        decreases n,
    {
        assert(s@.take(n as int).drop_last() == s@.take(n - 1));
        n = n - 1;
    }
    head(s, n)
}

/// `s` without its leading and trailing white space.
pub fn trimmed<'a>(s: &'a [char]) -> (r: &'a [char])
    ensures
        r@ == trim(s@),
{
    trimmed_end(trimmed_start(s))
}

/// `s` without every leading character of `set`.
pub open spec fn strip_leading(s: Seq<char>, set: Seq<char>) -> Seq<char>
    decreases s.len(),
{
    if s.len() > 0 && set.contains(s[0]) {
        strip_leading(s.skip(1), set)
    } else {
        s
    }
}

/// `s` without every trailing character of `set`.
pub open spec fn strip_trailing(s: Seq<char>, set: Seq<char>) -> Seq<char>
    decreases s.len(),
{
    if s.len() > 0 && set.contains(s.last()) {
        strip_trailing(s.drop_last(), set)
    } else {
        s
    }
}

/// Whether `c` is one of the characters of `set`.
pub fn is_one_of(c: char, set: &str) -> (r: bool)
    ensures
        r == set@.contains(c),
{
    for d in it: set.chars()
        invariant
            it.seq() == set@,
            forall|j: int| 0 <= j < it.index() ==> set@[j] != c,
    {
        if c == d {
            return true;
        }
    }
    false
}

/// `s` without every leading character of `set`.
pub fn stripped_leading<'a>(s: &'a [char], set: &str) -> (r: &'a [char])
    ensures
        r@ == strip_leading(s@, set@),
{
    let mut i: usize = 0;
    assert(s@.skip(0) == s@);
    while i < s.len() && is_one_of(s[i], set)
        invariant
            i <= s@.len(),
            strip_leading(s@, set@) == strip_leading(s@.skip(i as int), set@),
        decreases s@.len() - i,
    {
        assert(s@.skip(i as int).skip(1) == s@.skip(i + 1));
        i = i + 1;
    }
    tail(s, i)
}

/// `s` without every trailing character of `set`.
pub fn stripped_trailing<'a>(s: &'a [char], set: &str) -> (r: &'a [char])
    ensures
        r@ == strip_trailing(s@, set@),
{
    let mut n: usize = s.len();
    assert(s@.take(n as int) == s@);
    while n > 0 && is_one_of(s[n - 1], set)
        invariant
            n <= s@.len(),
            strip_trailing(s@, set@) == strip_trailing(s@.take(n as int), set@),
        decreases n,
    {
        assert(s@.take(n as int).drop_last() == s@.take(n - 1));
        n = n - 1;
    }
    head(s, n)
}

// ---------------------------------------------------------------------------
// Prefixes, suffixes and search
// ---------------------------------------------------------------------------

/// `s` begins with `p`.
pub open spec fn starts(s: Seq<char>, p: Seq<char>) -> bool {
    p.len() <= s.len() && s.take(p.len() as int) == p
}

/// `s` ends with `p`.
pub open spec fn ends(s: Seq<char>, p: Seq<char>) -> bool {
    p.len() <= s.len() && s.skip(s.len() - p.len()) == p
}

/// Where `p` first occurs in `s`.
pub open spec fn first_of(s: Seq<char>, p: Seq<char>) -> Option<int>
    decreases s.len(),
{
    if starts(s, p) {
        Some(0)
    } else if s.len() == 0 {
        None
    } else {
        match first_of(s.skip(1), p) {
            Some(i) => Some(i + 1),
            None => None,
        }
    }
}

/// Where `p` last occurs in `s`.
pub open spec fn last_of(s: Seq<char>, p: Seq<char>) -> Option<int>
    decreases s.len(),
{
    if ends(s, p) {
        Some(s.len() - p.len())
    } else if s.len() == 0 {
        None
    } else {
        last_of(s.drop_last(), p)
    }
}

/// `p` occurs in `s`.
pub open spec fn has(s: Seq<char>, p: Seq<char>) -> bool {
    first_of(s, p) is Some
}

/// `s` without `p`, as often as it stands at the front.
pub open spec fn strip_prefixes(s: Seq<char>, p: Seq<char>) -> Seq<char>
    decreases s.len(),
{
    if p.len() > 0 && starts(s, p) {
        strip_prefixes(s.skip(p.len() as int), p)
    } else {
        s
    }
}

/// `s` without `p`, as often as it stands at the end.
pub open spec fn strip_suffixes(s: Seq<char>, p: Seq<char>) -> Seq<char>
    decreases s.len(),
{
    if p.len() > 0 && ends(s, p) {
        strip_suffixes(s.take(s.len() - p.len()), p)
    } else {
        s
    }
}

/// A found place lies inside the text, the searched text stands there, and
/// nowhere before; when nothing is found it stands nowhere.
pub proof fn lemma_first_of(s: Seq<char>, p: Seq<char>)
    ensures
        first_of(s, p) matches Some(i) ==> {
            &&& 0 <= i <= s.len() - p.len()
            &&& starts(s.skip(i), p)
            &&& forall|j: int| 0 <= j < i ==> !starts(#[trigger] s.skip(j), p)
        },
        first_of(s, p) is None ==> forall|j: int|
            0 <= j <= s.len() ==> !starts(#[trigger] s.skip(j), p),
    decreases s.len(),
{
    assert(s.skip(0) == s);
    if !starts(s, p) && s.len() > 0 {
        lemma_first_of(s.skip(1), p);
        assert forall|j: int| 1 <= j <= s.len() implies #[trigger] s.skip(j) == s.skip(1).skip(
            j - 1,
        ) by {}
        if first_of(s.skip(1), p) is Some {
            let i = first_of(s.skip(1), p)->Some_0;
            assert(s.skip(i + 1) == s.skip(1).skip(i));
            assert forall|j: int| 0 <= j < i + 1 implies !starts(#[trigger] s.skip(j), p) by {
                if j > 0 {
                    assert(s.skip(j) == s.skip(1).skip(j - 1));
                }
            }
        } else {
            assert forall|j: int| 0 <= j <= s.len() implies !starts(#[trigger] s.skip(j), p) by {
                if j > 0 {
                    assert(s.skip(j) == s.skip(1).skip(j - 1));
                }
            }
        }
    }
}

/// A text holds each of its parts.
pub proof fn lemma_has_part(a: Seq<char>, p: Seq<char>, b: Seq<char>)
    ensures
        has(a + p + b, p),
{
    let s = a + p + b;
    lemma_first_of(s, p);
    let at = a.len() as int;
    assert(s.skip(at) =~= p + b);
    assert((p + b).take(p.len() as int) =~= p);
    assert(starts(s.skip(at), p));
}

/// A text holds what a part of it holds.
pub proof fn lemma_has_more(a: Seq<char>, s: Seq<char>, b: Seq<char>, p: Seq<char>)
    requires
        has(s, p),
    ensures
        has(a + s + b, p),
{
    lemma_first_of(s, p);
    let i = first_of(s, p)->Some_0;
    let whole = a + s + b;
    let before = a + s.take(i);
    let after = s.skip(i + p.len()) + b;
    assert(s.skip(i).take(p.len() as int) == p);
    assert(s =~= s.take(i) + p + s.skip(i + p.len()));
    assert(whole =~= before + p + after);
    lemma_has_part(before, p, after);
}

/// A last place lies inside the text and the searched text stands there.
pub proof fn lemma_last_of(s: Seq<char>, p: Seq<char>)
    ensures
        last_of(s, p) matches Some(i) ==> {
            &&& 0 <= i <= s.len() - p.len()
            &&& s.subrange(i, i + p.len()) == p
        },
    decreases s.len(),
{
    if ends(s, p) {
        assert(s.subrange(s.len() - p.len(), s.len() as int) == s.skip(s.len() - p.len()));
    } else if s.len() > 0 {
        lemma_last_of(s.drop_last(), p);
        if last_of(s.drop_last(), p) is Some {
            let i = last_of(s.drop_last(), p)->Some_0;
            assert(s.subrange(i, i + p.len()) == s.drop_last().subrange(i, i + p.len()));
        }
    }
}

/// Whether `s` begins with `p`.
pub fn starts_with(s: &[char], p: &str) -> (r: bool)
    ensures
        r == starts(s@, p@),
{
    let mut i: usize = 0;
    for c in it: p.chars()
        invariant
            i == it.index(),
            it.seq() == p@,
            i <= s@.len(),
            forall|j: int| 0 <= j < i ==> s@[j] == p@[j],
    {
        if i >= s.len() || s[i] != c {
            assert(!starts(s@, p@)) by {
                if starts(s@, p@) {
                    assert(s@.take(p@.len() as int)[i as int] == p@[i as int]);
                }
            }
            return false;
        }
        i = i + 1;
    }
    assert(s@.take(p@.len() as int) == p@);
    true
}

/// Whether `s` begins with the characters `p`.
pub fn starts_with_chars(s: &[char], p: &[char]) -> (r: bool)
    ensures
        r == starts(s@, p@),
{
    if p.len() > s.len() {
        return false;
    }
    same_chars(head(s, p.len()), p)
}

/// Whether `s` ends with `p`.
pub fn ends_with(s: &[char], p: &str) -> (r: bool)
    ensures
        r == ends(s@, p@),
{
    let q = chars_of(p);
    if q.len() > s.len() {
        return false;
    }
    same_chars(tail(s, s.len() - q.len()), q.as_slice())
}

/// Where the characters `p` first occur in `s`.
pub fn find_chars(s: &[char], p: &[char]) -> (r: Option<usize>)
    ensures
        r matches Some(i) ==> first_of(s@, p@) == Some(i as int) && i + p@.len() <= s@.len(),
        r is None <==> first_of(s@, p@) is None,
{
    let mut i: usize = 0;
    assert(s@.skip(0) == s@);
    loop
        invariant
            i <= s@.len(),
            first_of(s@, p@) == (match first_of(s@.skip(i as int), p@) {
                Some(k) => Some(k + i),
                None => None::<int>,
            }),
        decreases s@.len() - i,
    {
        if starts_with_chars(tail(s, i), p) {
            return Some(i);
        }
        if i >= s.len() {
            return None;
        }
        assert(s@.skip(i as int).skip(1) == s@.skip(i + 1));
        i = i + 1;
    }
}

/// Where `p` first occurs in `s`.
pub fn find(s: &[char], p: &str) -> (r: Option<usize>)
    ensures
        r matches Some(i) ==> first_of(s@, p@) == Some(i as int) && i + p@.len() <= s@.len(),
        r is None <==> first_of(s@, p@) is None,
{
    let q = chars_of(p);
    find_chars(s, q.as_slice())
}

/// Where `p` last occurs in `s`.
pub fn rfind(s: &[char], p: &str) -> (r: Option<usize>)
    ensures
        r matches Some(i) ==> last_of(s@, p@) == Some(i as int) && i + p@.len() <= s@.len(),
        r is None <==> last_of(s@, p@) is None,
{
    let mut n: usize = s.len();
    assert(s@.take(n as int) == s@);
    loop
        invariant
            n <= s@.len(),
            last_of(s@, p@) == last_of(s@.take(n as int), p@),
        decreases n,
    {
        let h = head(s, n);
        if ends_with(h, p) {
            let q = chars_of(p);
            return Some(n - q.len());
        }
        if n == 0 {
            return None;
        }
        assert(s@.take(n as int).drop_last() == s@.take(n - 1));
        n = n - 1;
    }
}

/// Whether `p` occurs in `s`.
pub fn contains(s: &[char], p: &str) -> (r: bool)
    ensures
        r == has(s@, p@),
{
    find(s, p).is_some()
}

/// `s` without `p`, as often as it stands at the front.
pub fn stripped_prefixes<'a>(s: &'a [char], p: &str) -> (r: &'a [char])
    requires
        p@.len() > 0,
    ensures
        r@ == strip_prefixes(s@, p@),
{
    let n = chars_of(p).len();
    let total = s.len();
    let mut i: usize = 0;
    assert(s@.skip(0) == s@);
    while starts_with(tail(s, i), p)
        invariant
            total == s@.len(),
            n == p@.len(),
            n > 0,
            i <= s@.len(),
            strip_prefixes(s@, p@) == strip_prefixes(s@.skip(i as int), p@),
        decreases s@.len() - i,
    {
        assert(n <= s@.skip(i as int).len());
        assert(s@.skip(i as int).skip(n as int) == s@.skip(i + n));
        i = i + n;
    }
    tail(s, i)
}

/// `s` without `p`, as often as it stands at the end.
pub fn stripped_suffixes<'a>(s: &'a [char], p: &str) -> (r: &'a [char])
    requires
        p@.len() > 0,
    ensures
        r@ == strip_suffixes(s@, p@),
{
    let k = chars_of(p).len();
    let mut n: usize = s.len();
    assert(s@.take(n as int) == s@);
    while ends_with(head(s, n), p)
        invariant
            k == p@.len(),
            k > 0,
            n <= s@.len(),
            strip_suffixes(s@, p@) == strip_suffixes(s@.take(n as int), p@),
        decreases n,
    {
        assert(s@.take(n as int).take(n - k) == s@.take(n - k));
        n = n - k;
    }
    head(s, n)
}


// ---------------------------------------------------------------------------
// Splitting
// ---------------------------------------------------------------------------

/// How many characters stand before the first `c`; all of them when there is
/// none.
pub open spec fn until(s: Seq<char>, c: char) -> nat
    decreases s.len(),
{
    if s.len() == 0 || s[0] == c {
        0
    } else {
        1 + until(s.skip(1), c)
    }
}

/// The place of the first `c` holds it, and it stands nowhere before.
pub proof fn lemma_until(s: Seq<char>, c: char)
    ensures
        until(s, c) <= s.len(),
        until(s, c) < s.len() ==> s[until(s, c) as int] == c,
        forall|j: int| 0 <= j < until(s, c) ==> s[j] != c,
    decreases s.len(),
{
    if s.len() > 0 && s[0] != c {
        lemma_until(s.skip(1), c);
        assert forall|j: int| 0 <= j < until(s, c) implies s[j] != c by {
            if j > 0 {
                assert(s[j] == s.skip(1)[j - 1]);
            }
        }
    }
}

/// How many characters of `s`, from `from` on, stand before the first `c`.
pub fn count_until(s: &[char], from: usize, c: char) -> (r: usize)
    requires
        from <= s@.len(),
    ensures
        r == until(s@.skip(from as int), c),
        from + r <= s@.len(),
{
    let mut i: usize = from;
    while i < s.len() && s[i] != c
        invariant
            from <= i <= s@.len(),
            until(s@.skip(from as int), c) == (i - from) + until(s@.skip(i as int), c),
        decreases s@.len() - i,
    {
        assert(s@.skip(i as int).skip(1) == s@.skip(i + 1));
        i = i + 1;
    }
    i - from
}

/// A line without the carriage return that belongs to its line end.
pub open spec fn without_cr(s: Seq<char>) -> Seq<char> {
    if s.len() > 0 && s.last() == '\r' {
        s.drop_last()
    } else {
        s
    }
}

/// The lines of a text: it is cut at each newline, a carriage return before
/// the newline belongs to the line end, and a last line needs no newline.
pub open spec fn lines(s: Seq<char>) -> Seq<Seq<char>>
    decreases s.len(),
    via lines_decreases
{
    if s.len() == 0 {
        Seq::empty()
    } else {
        let n = until(s, '\n') as int;
        if n >= s.len() {
            seq![s]
        } else {
            seq![without_cr(s.take(n))] + lines(s.skip(n + 1))
        }
    }
}

#[via_fn]
proof fn lines_decreases(s: Seq<char>) {
    lemma_until(s, '\n');
}

/// The place of the first `c` is the one that holds it with none before.
proof fn lemma_until_is(s: Seq<char>, c: char, n: int)
    requires
        0 <= n <= s.len(),
        n < s.len() ==> s[n] == c,
        forall|j: int| 0 <= j < n ==> s[j] != c,
    ensures
        until(s, c) == n,
{
    lemma_until(s, c);
}

/// A text that is cut behind a newline has the lines of its two parts.
pub proof fn lemma_lines_parts(x: Seq<char>, y: Seq<char>)
    requires
        x.len() > 0,
        x.last() == '\n',
    ensures
        lines(x + y) == lines(x) + lines(y),
    decreases x.len(),
{
    let n = until(x, '\n') as int;
    lemma_until(x, '\n');
    assert(x[x.len() - 1] == '\n');
    assert(n < x.len());
    lemma_until_is(x + y, '\n', n);
    let rest = x.skip(n + 1);
    assert((x + y).take(n) =~= x.take(n));
    assert((x + y).skip(n + 1) =~= rest + y);
    let first = seq![without_cr(x.take(n))];
    assert(lines(x) == first + lines(rest));
    assert(lines(x + y) == first + lines(rest + y));
    if rest.len() > 0 {
        assert(rest.last() == '\n');
        lemma_lines_parts(rest, y);
    } else {
        assert(rest + y =~= y);
        assert(lines(rest) =~= Seq::<Seq<char>>::empty());
    }
    assert(first + (lines(rest) + lines(y)) =~= first + lines(rest) + lines(y));
    assert(lines(x + y) =~= lines(x) + lines(y));
}

/// A newline at the end of a text ends its last line, or adds an empty one
/// when the last line is ended already.
pub proof fn lemma_lines_break(x: Seq<char>)
    ensures
        x.len() == 0 ==> lines(x.push('\n')) == seq![Seq::<char>::empty()],
        x.len() > 0 && x.last() == '\n' ==> lines(x.push('\n')) == lines(x).push(
            Seq::<char>::empty(),
        ),
        x.len() > 0 && x.last() != '\n' ==> lines(x).len() > 0 && lines(x.push('\n')) == lines(
            x,
        ).drop_last().push(without_cr(lines(x).last())),
    decreases x.len(),
{
    let y = x.push('\n');
    if x.len() == 0 {
        lemma_until_is(y, '\n', 0);
        assert(lines(y.skip(1)) =~= Seq::<Seq<char>>::empty());
        assert(y.take(0) =~= Seq::<char>::empty());
        assert(lines(y) =~= seq![Seq::<char>::empty()]);
    } else {
        let n = until(x, '\n') as int;
        lemma_until(x, '\n');
        lemma_until_is(y, '\n', n);
        if n >= x.len() {
            assert(y.take(n) =~= x);
            assert(lines(y.skip(n + 1)) =~= Seq::<Seq<char>>::empty());
            assert(lines(y) =~= lines(x).drop_last().push(without_cr(x)));
        } else {
            let rest = x.skip(n + 1);
            lemma_lines_break(rest);
            assert(y.take(n) =~= x.take(n));
            assert(y.skip(n + 1) =~= rest.push('\n'));
            if rest.len() == 0 {
                assert(lines(rest) =~= Seq::<Seq<char>>::empty());
                assert(lines(y) =~= lines(x).push(Seq::<char>::empty()));
            } else if x.last() == '\n' {
                assert(lines(y) =~= lines(x).push(Seq::<char>::empty()));
            } else {
                assert(lines(x).last() == lines(rest).last());
                assert(lines(y) =~= lines(x).drop_last().push(without_cr(lines(x).last())));
            }
        }
    }
}

/// A carriage return at the end of a line is white space.
pub proof fn lemma_without_cr(s: Seq<char>)
    ensures
        trim_end(without_cr(s)) == trim_end(s),
{
}

/// The lines of `s`.
pub fn lines_of(s: &[char]) -> (r: Vec<Vec<char>>)
    ensures
        char_texts(r@) == lines(s@),
{
    let mut r: Vec<Vec<char>> = Vec::new();
    let mut i: usize = 0;
    let total = s.len();
    assert(s@.skip(0) == s@);
    while i < total
        invariant
            total == s@.len(),
            i <= total,
            lines(s@) == char_texts(r@) + lines(s@.skip(i as int)),
        decreases total - i,
    {
        let n = count_until(s, i, '\n');
        let ghost rest = s@.skip(i as int);
        let ghost before = r@;
        if n >= total - i {
            let line = slice_to_vec(tail(s, i));
            r.push(line);
            assert(line@ == rest);
            assert(char_texts(r@) =~= char_texts(before).push(rest));
            assert(lines(s@.skip(total as int)) =~= Seq::<Seq<char>>::empty());
            assert(lines(s@) =~= char_texts(r@) + lines(s@.skip(total as int)));
            i = total;
        } else {
            let mut end: usize = i + n;
            if end > i && s[end - 1] == '\r' {
                end = end - 1;
            }
            let line = slice_to_vec(slice_subrange(s, i, end));
            assert(line@ == without_cr(rest.take(n as int)));
            r.push(line);
            assert(rest.skip(n + 1) == s@.skip(i + n + 1));
            assert(char_texts(r@) =~= char_texts(before).push(line@));
            assert(char_texts(before) + (seq![line@] + lines(rest.skip(n + 1))) =~= char_texts(r@) + lines(
                rest.skip(n + 1),
            ));
            i = i + n + 1;
        }
    }
    assert(lines(s@.skip(i as int)) =~= Seq::<Seq<char>>::empty());
    assert(char_texts(r@) + Seq::<Seq<char>>::empty() =~= char_texts(r@));
    r
}

/// The parts of `s` between the occurrences of `c`.
pub open spec fn split_on(s: Seq<char>, c: char) -> Seq<Seq<char>>
    decreases s.len(),
    via split_on_decreases
{
    let n = until(s, c) as int;
    if n >= s.len() {
        seq![s]
    } else {
        seq![s.take(n)] + split_on(s.skip(n + 1), c)
    }
}

#[via_fn]
proof fn split_on_decreases(s: Seq<char>, c: char) {
    lemma_until(s, c);
}

/// The parts of `s` between the occurrences of `c`.
pub fn split_chars(s: &[char], c: char) -> (r: Vec<Vec<char>>)
    ensures
        char_texts(r@) == split_on(s@, c),
{
    let mut r: Vec<Vec<char>> = Vec::new();
    let mut i: usize = 0;
    let total = s.len();
    assert(s@.skip(0) == s@);
    assert(Seq::<Seq<char>>::empty() + split_on(s@, c) =~= split_on(s@, c));
    loop
        invariant
            total == s@.len(),
            i <= total,
            split_on(s@, c) == char_texts(r@) + split_on(s@.skip(i as int), c),
        decreases total - i,
    {
        let n = count_until(s, i, c);
        let ghost rest = s@.skip(i as int);
        let ghost before = r@;
        if n >= total - i {
            let part = slice_to_vec(tail(s, i));
            r.push(part);
            assert(part@ == rest);
            assert(char_texts(r@) =~= char_texts(before) + seq![rest]);
            return r;
        }
        let part = slice_to_vec(slice_subrange(s, i, i + n));
        assert(part@ == rest.take(n as int));
        r.push(part);
        assert(rest.skip(n + 1) == s@.skip(i + n + 1));
        assert(char_texts(before) + (seq![part@] + split_on(rest.skip(n + 1), c)) =~= char_texts(r@) + split_on(
            rest.skip(n + 1),
            c,
        ));
        i = i + n + 1;
    }
}

/// How many characters of `s` stand before its first white space.
pub open spec fn word_length(s: Seq<char>) -> nat
    decreases s.len(),
{
    if s.len() == 0 || is_white_space(s[0]) {
        0
    } else {
        1 + word_length(s.skip(1))
    }
}

proof fn lemma_word_length(s: Seq<char>)
    ensures
        word_length(s) <= s.len(),
        s.len() > 0 && !is_white_space(s[0]) ==> word_length(s) > 0,
    decreases s.len(),
{
    if s.len() > 0 && !is_white_space(s[0]) {
        lemma_word_length(s.skip(1));
    }
}

proof fn lemma_trim_start_length(s: Seq<char>)
    ensures
        trim_start(s).len() <= s.len(),
        trim_start(s).len() > 0 ==> !is_white_space(trim_start(s)[0]),
    decreases s.len(),
{
    if s.len() > 0 && is_white_space(s[0]) {
        lemma_trim_start_length(s.skip(1));
    }
}

/// The words of a text: its runs of characters other than white space.
pub open spec fn words(s: Seq<char>) -> Seq<Seq<char>>
    decreases s.len(),
    via words_decreases
{
    let t = trim_start(s);
    if t.len() == 0 {
        Seq::empty()
    } else {
        let n = word_length(t) as int;
        seq![t.take(n)] + words(t.skip(n))
    }
}

#[via_fn]
proof fn words_decreases(s: Seq<char>) {
    lemma_trim_start_length(s);
    lemma_word_length(trim_start(s));
}

/// The words of `s`.
pub fn words_of(s: &[char]) -> (r: Vec<Vec<char>>)
    ensures
        char_texts(r@) == words(s@),
{
    let mut r: Vec<Vec<char>> = Vec::new();
    let mut rest: &[char] = s;
    assert(Seq::<Seq<char>>::empty() + words(s@) =~= words(s@));
    loop
        invariant
            words(s@) == char_texts(r@) + words(rest@),
        decreases rest@.len(),
    {
        let ghost all = rest@;
        let ghost before = r@;
        proof {
            lemma_trim_start_length(rest@);
            lemma_word_length(trim_start(rest@));
        }
        let t = trimmed_start(rest);
        if t.len() == 0 {
            assert(char_texts(r@) + Seq::<Seq<char>>::empty() =~= char_texts(r@));
            return r;
        }
        let mut n: usize = 0;
        assert(t@.skip(0) == t@);
        while n < t.len() && !white_space(t[n])
            invariant
                n <= t@.len(),
                word_length(t@) == n + word_length(t@.skip(n as int)),
            decreases t@.len() - n,
        {
            assert(t@.skip(n as int).skip(1) == t@.skip(n + 1));
            n = n + 1;
        }
        let word = slice_to_vec(head(t, n));
        r.push(word);
        assert(char_texts(before) + (seq![word@] + words(t@.skip(n as int))) =~= char_texts(r@) + words(
            t@.skip(n as int),
        ));
        rest = tail(t, n);
    }
}

// ---------------------------------------------------------------------------
// Joining and replacing
// ---------------------------------------------------------------------------

/// The texts of a list one after the other.
pub open spec fn concat(list: Seq<Seq<char>>) -> Seq<char>
    decreases list.len(),
{
    if list.len() == 0 {
        Seq::empty()
    } else {
        concat(list.drop_last()) + list.last()
    }
}

/// The texts of a list with `sep` between them.
pub open spec fn join(list: Seq<Seq<char>>, sep: Seq<char>) -> Seq<char>
    decreases list.len(),
{
    if list.len() == 0 {
        Seq::empty()
    } else if list.len() == 1 {
        list[0]
    } else {
        join(list.drop_last(), sep) + sep + list.last()
    }
}

/// The texts of `list` with `sep` between them.
pub fn joined(list: &Vec<Vec<char>>, sep: &str) -> (r: Vec<char>)
    ensures
        r@ == join(char_texts(list@), sep@),
{
    let mut r: Vec<char> = Vec::new();
    let s = chars_of(sep);
    for i in 0..list.len()
        invariant
            s@ == sep@,
            r@ == join(char_texts(list@).take(i as int), sep@),
    {
        let ghost all = char_texts(list@);
        proof {
            lemma_take_next(all, i as int);
            assert(all.take(i + 1).drop_last() == all.take(i as int));
            assert(all.take(i + 1).last() == list@[i as int]@);
        }
        if i > 0 {
            r.extend_from_slice(s.as_slice());
        }
        r.extend_from_slice(list[i].as_slice());
        assert(r@ == join(all.take(i + 1), sep@));
    }
    assert(char_texts(list@).take(list@.len() as int) == char_texts(list@));
    r
}

/// The texts of `list` with `sep` between them.
pub fn join_texts(list: &Vec<String>, sep: &str) -> (r: String)
    ensures
        r@ == join(texts(list@), sep@),
{
    let mut r = String::new();
    for i in 0..list.len()
        invariant
            r@ == join(texts(list@).take(i as int), sep@),
    {
        let ghost all = texts(list@);
        proof {
            lemma_take_next(all, i as int);
            assert(all.take(i + 1).drop_last() == all.take(i as int));
            assert(all.take(i + 1).last() == list@[i as int]@);
        }
        if i > 0 {
            r.append(sep);
        }
        r.append(list[i].as_str());
        assert(r@ == join(all.take(i + 1), sep@));
    }
    assert(texts(list@).take(list@.len() as int) == texts(list@));
    r
}

/// `s` with every occurrence of `p`, from the left and without overlap,
/// replaced by `by`.
pub open spec fn replace(s: Seq<char>, p: Seq<char>, by: Seq<char>) -> Seq<char>
    decreases s.len(),
{
    if p.len() == 0 || s.len() == 0 {
        s
    } else if starts(s, p) {
        by + replace(s.skip(p.len() as int), p, by)
    } else {
        seq![s[0]] + replace(s.skip(1), p, by)
    }
}

/// `s` with every occurrence of `p` replaced by `by`.
pub fn replaced(s: &[char], p: &str, by: &str) -> (r: Vec<char>)
    requires
        p@.len() > 0,
    ensures
        r@ == replace(s@, p@, by@),
{
    let pat = chars_of(p);
    let new = chars_of(by);
    let mut r: Vec<char> = Vec::new();
    let mut i: usize = 0;
    let total = s.len();
    assert(s@.skip(0) == s@);
    assert(Seq::<char>::empty() + replace(s@, p@, by@) =~= replace(s@, p@, by@));
    while i < total
        invariant
            total == s@.len(),
            i <= total,
            pat@ == p@,
            p@.len() > 0,
            new@ == by@,
            replace(s@, p@, by@) == r@ + replace(s@.skip(i as int), p@, by@),
        decreases total - i,
    {
        let ghost rest = s@.skip(i as int);
        let ghost before = r@;
        if starts_with_chars(tail(s, i), pat.as_slice()) {
            r.extend_from_slice(new.as_slice());
            assert(pat@.len() <= rest.len());
            assert(rest.skip(p@.len() as int) == s@.skip(i + pat@.len()));
            assert(before + (by@ + replace(rest.skip(p@.len() as int), p@, by@)) =~= r@ + replace(
                rest.skip(p@.len() as int),
                p@,
                by@,
            ));
            i = i + pat.len();
        } else {
            r.push(s[i]);
            assert(rest.skip(1) == s@.skip(i + 1));
            assert(before + (seq![rest[0]] + replace(rest.skip(1), p@, by@)) =~= r@ + replace(
                rest.skip(1),
                p@,
                by@,
            ));
            i = i + 1;
        }
    }
    assert(s@.skip(i as int) =~= Seq::<char>::empty());
    assert(r@ + Seq::<char>::empty() =~= r@);
    r
}

/// `s` without the characters of `set`.
pub open spec fn without(s: Seq<char>, set: Seq<char>) -> Seq<char>
    decreases s.len(),
{
    if s.len() == 0 {
        s
    } else if set.contains(s.last()) {
        without(s.drop_last(), set)
    } else {
        without(s.drop_last(), set).push(s.last())
    }
}

/// `s` without the characters of `set`.
pub fn removed(s: &[char], set: &str) -> (r: Vec<char>)
    ensures
        r@ == without(s@, set@),
{
    let mut r: Vec<char> = Vec::new();
    for i in 0..s.len()
        invariant
            r@ == without(s@.take(i as int), set@),
    {
        assert(s@.take(i + 1).drop_last() == s@.take(i as int));
        if !is_one_of(s[i], set) {
            r.push(s[i]);
        }
    }
    assert(s@.take(s@.len() as int) == s@);
    r
}

}
