//! Page text, and where a quote stands on a page.

use vstd::prelude::*;
use vstd::string::*;

use crate::pattern::{
    find_matches, group, hits, regex_matches, rewrite, rewrite_hits, Hit, Matches, REFERENCE_BLOCK,
    REFERENCE_MARKER, SCRIPT_BLOCK, TAG,
};
use crate::text::{
    char_texts, chars_of, contains, first_of, has, join, joined, lemma_first_of, replace, replaced, same_chars, split_chars,
    split_on, text_of, trim_end, trimmed_end, words, words_of,
};

verus! {

// ---------------------------------------------------------------------------
// Characters and edit distance
// ---------------------------------------------------------------------------

/// The character, outside ASCII, is a letter or a digit of some script.
pub uninterp spec fn is_alphanumeric(c: char) -> bool;

/// The lower-case characters of a character outside ASCII.
pub uninterp spec fn lower_case(c: char) -> Seq<char>;

/// An ASCII character.
pub open spec fn is_ascii(c: char) -> bool {
    (c as int) < 128
}

/// An upper-case letter of ASCII.
pub open spec fn is_capital(c: char) -> bool {
    'A' <= c <= 'Z'
}

/// A lower-case letter or a digit of ASCII.
pub open spec fn is_small(c: char) -> bool {
    'a' <= c <= 'z' || '0' <= c <= '9'
}

/// A letter or a digit.
pub open spec fn letter_or_digit(c: char) -> bool {
    if is_ascii(c) {
        is_capital(c) || is_small(c)
    } else {
        is_alphanumeric(c)
    }
}

/// The lower-case characters of a character.
pub open spec fn lowered(c: char) -> Seq<char> {
    if is_capital(c) {
        seq![(c as int + 32) as char]
    } else if is_ascii(c) {
        seq![c]
    } else {
        lower_case(c)
    }
}

/// Whether a character is a letter or a digit.
///
/// `char::is_alphanumeric`: of ASCII the letters and the digits, of the other
/// characters what depends on the character alone.
#[verifier::external_body]
pub(crate) fn alphanumeric(c: char) -> (r: bool)
    ensures
        is_ascii(c) ==> r == (is_capital(c) || is_small(c)),
        !is_ascii(c) ==> r == is_alphanumeric(c),
{
    c.is_alphanumeric()
}

/// The lower-case characters of a character.
///
/// `char::to_lowercase`: the small letter of an ASCII capital, any other ASCII
/// character as it is, and of the other characters what depends on the
/// character alone.
#[verifier::external_body]
fn lower(c: char) -> (r: Vec<char>)
    ensures
        is_capital(c) ==> r@ == seq![(c as int + 32) as char],
        is_ascii(c) && !is_capital(c) ==> r@ == seq![c],
        !is_ascii(c) ==> r@ == lower_case(c),
{
    c.to_lowercase().collect()
}

/// The least of two numbers.
pub open spec fn least(a: nat, b: nat) -> nat {
    if a <= b {
        a
    } else {
        b
    }
}

/// The least number of characters to insert, delete or substitute to make one
/// text the other.
pub open spec fn edit_distance(a: Seq<char>, b: Seq<char>) -> nat
    decreases a.len() + b.len(),
{
    if a.len() == 0 {
        b.len()
    } else if b.len() == 0 {
        a.len()
    } else {
        let change = edit_distance(a.drop_last(), b.drop_last()) + if a.last() == b.last() {
            0nat
        } else {
            1nat
        };
        least(
            change,
            least(edit_distance(a.drop_last(), b) + 1, edit_distance(a, b.drop_last()) + 1),
        )
    }
}

/// The edit distance of two texts.
///
/// `strsim::levenshtein`: the least number of insertions, deletions and
/// substitutions of characters that change one text into the other.
#[verifier::external_body]
fn levenshtein(a: &str, b: &str) -> (r: usize)
    ensures
        r == edit_distance(a@, b@),
{
    strsim::levenshtein(a, b)
}

// ---------------------------------------------------------------------------
// Page text
// ---------------------------------------------------------------------------

/// A text with each match of a pattern replaced by a space.
pub open spec fn blanked(pattern: Seq<char>, s: Seq<char>) -> Seq<char> {
    let m = regex_matches(pattern, s);
    rewrite(m.0, m.1, |h: Hit| " "@)
}

/// The text that matches make up with a space in place of each.
pub fn blanks(m: &Matches) -> (r: String)
    ensures
        r@ == rewrite(m@.0, m@.1, |h: Hit| " "@),
{
    let ghost all = hits(m.found@);
    let ghost blank = |h: Hit| " "@;
    let mut r = String::new();
    assert(all.take(0) =~= Seq::<Hit>::empty());
    for i in 0..m.found.len()
        invariant
            all == hits(m.found@),
            blank == (|h: Hit| " "@),
            r@ == rewrite_hits(all.take(i as int), blank),
    {
        assert(all.take(i + 1).drop_last() == all.take(i as int));
        assert(all.take(i + 1).last() == m.found@[i as int]@);
        r.append(m.found[i].before.as_str());
        r.append(" ");
    }
    assert(all.take(m.found@.len() as int) == all);
    r.append(m.rest.as_str());
    r
}

/// A text with the common entities decoded, in this order.
pub open spec fn decoded(s: Seq<char>) -> Seq<char> {
    let s1 = replace(s, "&nbsp;"@, " "@);
    let s2 = replace(s1, "&amp;"@, "&"@);
    let s3 = replace(s2, "&lt;"@, "<"@);
    let s4 = replace(s3, "&gt;"@, ">"@);
    let s5 = replace(s4, "&quot;"@, "\""@);
    let s6 = replace(s5, "&#39;"@, "'"@);
    replace(s6, "&#160;"@, " "@)
}

/// The words of a text without its tags, one space apart.
pub open spec fn collapsed(s: Seq<char>) -> Seq<char> {
    join(words(decoded(s)), " "@)
}

/// A page with its scripts, styles, references and tags blanked; it has none
/// without a `<`.
pub open spec fn untagged(html: Seq<char>) -> Seq<char> {
    if has(html, "<"@) {
        blanked(TAG@, blanked(REFERENCE_BLOCK@, blanked(SCRIPT_BLOCK@, html)))
    } else {
        html
    }
}

/// What a page says: scripts, styles, references and tags taken out, entities
/// decoded, white space collapsed.
pub open spec fn page_text(html: Seq<char>) -> Seq<char> {
    collapsed(untagged(html))
}

/// Decodes the common entities of a text without tags and collapses its white
/// space.
pub fn collapse(text: &str) -> (r: String)
    ensures
        r@ == collapsed(text@),
{
    proof {
        reveal_strlit("&nbsp;");
        reveal_strlit("&amp;");
        reveal_strlit("&lt;");
        reveal_strlit("&gt;");
        reveal_strlit("&quot;");
        reveal_strlit("&#39;");
        reveal_strlit("&#160;");
    }
    let s = chars_of(text);
    let s1 = replaced(s.as_slice(), "&nbsp;", " ");
    let s2 = replaced(s1.as_slice(), "&amp;", "&");
    let s3 = replaced(s2.as_slice(), "&lt;", "<");
    let s4 = replaced(s3.as_slice(), "&gt;", ">");
    let s5 = replaced(s4.as_slice(), "&quot;", "\"");
    let s6 = replaced(s5.as_slice(), "&#39;", "'");
    let s7 = replaced(s6.as_slice(), "&#160;", " ");
    let list = words_of(s7.as_slice());
    text_of(joined(&list, " ").as_slice())
}

/// Strip scripts, styles, and tags; decode the common entities; collapse
/// whitespace.
pub fn html_to_text(html: &str) -> (r: String)
    ensures
        r@ == page_text(html@),
{
    let cs = chars_of(html);
    if !contains(cs.as_slice(), "<") {
        return collapse(html);
    }
    let a = blanks(&find_matches(SCRIPT_BLOCK, html));
    let b = blanks(&find_matches(REFERENCE_BLOCK, a.as_str()));
    let c = blanks(&find_matches(TAG, b.as_str()));
    collapse(c.as_str())
}

/// The letters and digits of a text in lower case with one space for each run
/// of other characters after the first letter, and whether the text so far
/// ends in such a run or holds nothing.
pub open spec fn letters(s: Seq<char>) -> (Seq<char>, bool)
    decreases s.len(),
{
    if s.len() == 0 {
        (Seq::empty(), true)
    } else {
        let (out, space) = letters(s.drop_last());
        if letter_or_digit(s.last()) {
            (out + lowered(s.last()), false)
        } else if !space {
            (out.push(' '), true)
        } else {
            (out, space)
        }
    }
}

/// A text without reference markers as lower-case letters and digits, single
/// spaces between.
pub open spec fn plain_letters(s: Seq<char>) -> Seq<char> {
    trim_end(letters(s).0)
}

/// A text with its reference markers blanked; it has none without a `[`.
pub open spec fn unmarked(s: Seq<char>) -> Seq<char> {
    if has(s, "["@) {
        blanked(REFERENCE_MARKER@, s)
    } else {
        s
    }
}

/// A text as it is compared: reference markers dropped, lower case, letters
/// and digits only, single spaces.
pub open spec fn normal(s: Seq<char>) -> Seq<char> {
    plain_letters(unmarked(s))
}

/// A text of ASCII characters.
pub open spec fn all_ascii(s: Seq<char>) -> bool {
    forall|i: int| 0 <= i < s.len() ==> is_ascii(#[trigger] s[i])
}

/// Small letters and digits with single spaces between, the text so far.
pub open spec fn tidy_so_far(s: Seq<char>) -> bool {
    &&& forall|i: int| 0 <= i < s.len() ==> is_small(#[trigger] s[i]) || s[i] == ' '
    &&& s.len() > 0 ==> s[0] != ' '
    &&& forall|i: int, j: int|
        0 <= i && j == i + 1 && j < s.len() && #[trigger] s[i] == ' ' ==> #[trigger] s[j] != ' '
}

/// Small letters and digits of ASCII with single spaces between.
pub open spec fn tidy(s: Seq<char>) -> bool {
    &&& tidy_so_far(s)
    &&& s.len() > 0 ==> s.last() != ' '
}

/// The lower-case letters and digits of a text, single spaces between.
pub fn letters_of(text: &str) -> (r: String)
    ensures
        r@ == plain_letters(text@),
{
    let s = chars_of(text);
    let mut out: Vec<char> = Vec::new();
    let mut space = true;
    assert(s@.take(0) =~= Seq::<char>::empty());
    for i in 0..s.len()
        invariant
            letters(s@.take(i as int)) == (out@, space),
    {
        assert(s@.take(i + 1).drop_last() == s@.take(i as int));
        assert(s@.take(i + 1).last() == s@[i as int]);
        if alphanumeric(s[i]) {
            let l = lower(s[i]);
            let ghost before = out@;
            out.extend_from_slice(l.as_slice());
            assert(out@ =~= before + l@);
            space = false;
        } else if !space {
            out.push(' ');
            space = true;
        }
    }
    assert(s@.take(s@.len() as int) == s@);
    text_of(trimmed_end(out.as_slice()))
}

/// Lowercase, letters and digits only, single spaces. Wikipedia-style
/// reference markers (`[1]`, `[a]`, `[note 2]`, `[citation needed]`) are
/// dropped first, on the page and on the quote alike: a marker sits inside
/// a sentence, so leaving it in makes a passage that is otherwise verbatim
/// look absent, and a quote copied with its markers never matches a copy
/// whose markers differ.
///
/// What comes out for a text of ASCII characters are small letters and digits
/// of ASCII, single spaces between and none at the ends, and normalising it
/// again changes nothing.
pub fn normalise(text: &str) -> (r: String)
    ensures
        r@ == normal(text@),
        all_ascii(text@) ==> tidy(r@) && normal(r@) == r@,
{
    let cs = chars_of(text);
    let plain = if contains(cs.as_slice(), "[") {
        let m = find_matches(REFERENCE_MARKER, text);
        proof {
            if all_ascii(text@) {
                lemma_blanks_ascii(m@.0, m@.1);
            }
        }
        blanks(&m)
    } else {
        text.to_string()
    };
    proof {
        if all_ascii(text@) {
            lemma_letters_tidy(plain@);
            what_is_normal_stays(plain_letters(plain@));
        }
    }
    letters_of(plain.as_str())
}

proof fn lemma_hits_ascii(hits: Seq<Hit>)
    requires
        all_ascii(rewrite_hits(hits, |h: Hit| group(h, 0))),
    ensures
        all_ascii(rewrite_hits(hits, |h: Hit| " "@)),
    decreases hits.len(),
{
    if hits.len() > 0 {
        let whole = |h: Hit| group(h, 0);
        let front = rewrite_hits(hits.drop_last(), whole);
        let all = rewrite_hits(hits, whole);
        let before = hits.last().before;
        assert forall|i: int| 0 <= i < front.len() implies is_ascii(#[trigger] front[i]) by {
            assert(front[i] == all[i]);
        }
        lemma_hits_ascii(hits.drop_last());
        assert forall|i: int| 0 <= i < before.len() implies is_ascii(#[trigger] before[i]) by {
            assert(before[i] == all[front.len() + i]);
        }
        reveal_strlit(" ");
    }
}

/// Blanking matches in a text of ASCII characters gives another.
proof fn lemma_blanks_ascii(hits: Seq<Hit>, rest: Seq<char>)
    requires
        all_ascii(rewrite(hits, rest, |h: Hit| group(h, 0))),
    ensures
        all_ascii(rewrite(hits, rest, |h: Hit| " "@)),
{
    let front = rewrite_hits(hits, |h: Hit| group(h, 0));
    let all = rewrite(hits, rest, |h: Hit| group(h, 0));
    assert forall|i: int| 0 <= i < front.len() implies is_ascii(#[trigger] front[i]) by {
        assert(front[i] == all[i]);
    }
    lemma_hits_ascii(hits);
    assert forall|i: int| 0 <= i < rest.len() implies is_ascii(#[trigger] rest[i]) by {
        assert(rest[i] == all[front.len() + i]);
    }
}

proof fn lemma_letters_ascii(s: Seq<char>)
    requires
        all_ascii(s),
    ensures
        tidy_so_far(letters(s).0),
        letters(s).1 == (letters(s).0.len() == 0 || letters(s).0.last() == ' '),
    decreases s.len(),
{
    if s.len() > 0 {
        let front = s.drop_last();
        assert forall|i: int| 0 <= i < front.len() implies is_ascii(#[trigger] front[i]) by {
            assert(front[i] == s[i]);
        }
        lemma_letters_ascii(front);
        assert(is_ascii(s[s.len() - 1]));
    }
}

proof fn lemma_letters_tidy(s: Seq<char>)
    requires
        all_ascii(s),
    ensures
        tidy(plain_letters(s)),
{
    lemma_letters_ascii(s);
    let out = letters(s).0;
    if out.len() > 0 && out.last() == ' ' {
        let front = out.drop_last();
        assert(front.len() > 0);
        assert(out[front.len() - 1] != ' ' && out[front.len() as int] == ' ');
        assert(is_small(front.last()));
        assert(trim_end(front) == front);
        assert(trim_end(out) == front);
    } else if out.len() > 0 {
        assert(is_small(out[out.len() - 1]));
        assert(trim_end(out) == out);
    }
}

proof fn lemma_letters_stay(s: Seq<char>)
    requires
        tidy_so_far(s),
    ensures
        letters(s) == (s, s.len() == 0 || s.last() == ' '),
    decreases s.len(),
{
    if s.len() > 0 {
        let front = s.drop_last();
        assert(tidy_so_far(front)) by {
            assert forall|i: int| 0 <= i < front.len() implies is_small(#[trigger] front[i])
                || front[i] == ' ' by {
                assert(front[i] == s[i]);
            }
        }
        lemma_letters_stay(front);
        let c = s[s.len() - 1];
        if c == ' ' {
            assert(front.len() > 0);
            assert(s[front.len() - 1] != ' ');
        } else {
            assert(is_small(c));
            assert(lowered(c) =~= seq![c]);
        }
        assert(letters(s).0 =~= s);
    } else {
        assert(letters(s).0 =~= s);
    }
}

/// Normalising what is normal changes nothing: small letters and digits of
/// ASCII with single spaces between stay as they are.
pub proof fn what_is_normal_stays(s: Seq<char>)
    requires
        tidy(s),
    ensures
        normal(s) == s,
{
    lemma_letters_stay(s);
    if has(s, "["@) {
        reveal_strlit("[");
        lemma_first_of(s, "["@);
        let i = first_of(s, "["@)->Some_0;
        assert(s.skip(i).take(1)[0] == s[i]);
        assert(is_small(s[i]) || s[i] == ' ');
    }
    if s.len() > 0 {
        assert(is_small(s[s.len() - 1]));
    }
}

// ---------------------------------------------------------------------------
// Quotes on pages
// ---------------------------------------------------------------------------

/// How a page carries a quote.
#[derive(Debug, Clone, Copy, PartialEq, Eq, Structural)]
pub enum Standing {
    /// Word for word.
    Present,
    /// In a passage that differs a little.
    Moved,
    /// Not at all.
    Missing,
}

/// The parts of a text between spaces that hold something.
pub open spec fn filled(parts: Seq<Seq<char>>) -> Seq<Seq<char>>
    decreases parts.len(),
{
    if parts.len() == 0 {
        Seq::empty()
    } else if parts.last().len() > 0 {
        filled(parts.drop_last()).push(parts.last())
    } else {
        filled(parts.drop_last())
    }
}

/// The words of a normalised text.
pub open spec fn spaced_words(s: Seq<char>) -> Seq<Seq<char>> {
    filled(split_on(s, ' '))
}

/// How many of the words are among the quote's.
pub open spec fn overlap(window: Seq<Seq<char>>, quote: Seq<Seq<char>>) -> nat
    decreases window.len(),
{
    if window.len() == 0 {
        0
    } else {
        overlap(window.drop_last(), quote) + if quote.contains(window.last()) {
            1nat
        } else {
            0nat
        }
    }
}

/// The greater of two numbers.
pub open spec fn greatest(a: nat, b: nat) -> nat {
    if a >= b {
        a
    } else {
        b
    }
}

/// Two texts differ in at most a tenth of the characters of the longer.
pub open spec fn close(a: Seq<char>, b: Seq<char>) -> bool {
    10 * edit_distance(a, b) <= greatest(a.len(), b.len())
}

/// A window of words is close to the quote: it shares words with it, at least
/// three for every five of the quote's, and the two texts are close.
pub open spec fn window_matches(
    window: Seq<Seq<char>>,
    quote: Seq<char>,
    quote_words: Seq<Seq<char>>,
) -> bool {
    &&& 5 * overlap(window, quote_words) >= 3 * quote_words.len()
    &&& close(join(window, " "@), quote)
}

/// `size` words of the page from `start` are close to the quote.
pub open spec fn matches_at(
    page: Seq<Seq<char>>,
    start: int,
    size: int,
    quote: Seq<char>,
    quote_words: Seq<Seq<char>>,
) -> bool {
    &&& 0 <= start
    &&& start + size <= page.len()
    &&& window_matches(page.subrange(start, start + size), quote, quote_words)
}

/// Some window of the page with as many words as the quote, give or take one,
/// is close to it.
pub open spec fn has_window(page: Seq<char>, quote: Seq<char>) -> bool {
    let words = spaced_words(page);
    let quote_words = spaced_words(quote);
    let n = quote_words.len();
    &&& 0 < n <= words.len()
    &&& exists|start: int, size: int|
        n - 1 <= size <= n + 1 && 1 <= size && #[trigger] matches_at(
            words,
            start,
            size,
            quote,
            quote_words,
        )
}

/// How a normalised page carries a normalised quote.
pub open spec fn standing_of(page: Seq<char>, quote: Seq<char>) -> Standing {
    if quote.len() == 0 || has(page, quote) {
        Standing::Present
    } else if has_window(page, quote) {
        Standing::Moved
    } else {
        Standing::Missing
    }
}

/// How a normalised page carries a quote.
pub open spec fn standing(page: Seq<char>, quote: Seq<char>) -> Standing {
    standing_of(page, normal(quote))
}

/// The word for a standing.
pub open spec fn standing_word(s: Standing) -> Seq<char> {
    match s {
        Standing::Present => "present"@,
        Standing::Moved => "moved"@,
        Standing::Missing => "missing"@,
    }
}

fn words_of_normal(s: &[char]) -> (r: Vec<Vec<char>>)
    ensures
        char_texts(r@) == spaced_words(s@),
{
    let parts = split_chars(s, ' ');
    let ghost all = char_texts(parts@);
    let mut r: Vec<Vec<char>> = Vec::new();
    assert(all.take(0) =~= Seq::<Seq<char>>::empty());
    assert(char_texts(r@) =~= Seq::<Seq<char>>::empty());
    for i in 0..parts.len()
        invariant
            all == char_texts(parts@),
            char_texts(r@) == filled(all.take(i as int)),
    {
        assert(all.take(i + 1).drop_last() == all.take(i as int));
        assert(all.take(i + 1).last() == parts@[i as int]@);
        if parts[i].len() > 0 {
            let ghost before = r@;
            let mut w: Vec<char> = Vec::new();
            w.extend_from_slice(parts[i].as_slice());
            assert(w@ =~= parts@[i as int]@);
            r.push(w);
            assert(char_texts(r@) =~= char_texts(before).push(w@));
        }
    }
    assert(all.take(parts@.len() as int) == all);
    r
}

fn holds_word(list: &Vec<Vec<char>>, w: &Vec<char>) -> (r: bool)
    ensures
        r == char_texts(list@).contains(w@),
{
    for i in 0..list.len()
        invariant
            forall|j: int| 0 <= j < i ==> char_texts(list@)[j] != w@,
    {
        if same_chars(list[i].as_slice(), w.as_slice()) {
            assert(char_texts(list@)[i as int] == w@);
            return true;
        }
    }
    false
}

/// Whether the two texts are close.
fn close_texts(a: &str, b: &str) -> (r: bool)
    ensures
        r == close(a@, b@),
{
    let x: usize = a.unicode_len();
    let y: usize = b.unicode_len();
    let d: usize = levenshtein(a, b);
    let longest: usize = if x >= y {
        x
    } else {
        y
    };
    d as u128 * 10 <= longest as u128
}

fn window_at(
    words: &Vec<Vec<char>>,
    start: usize,
    size: usize,
    quote: &str,
    quote_words: &Vec<Vec<char>>,
) -> (r: bool)
    requires
        start + size <= words@.len(),
    ensures
        r == matches_at(
            char_texts(words@),
            start as int,
            size as int,
            quote@,
            char_texts(quote_words@),
        ),
{
    let ghost window = char_texts(words@).subrange(start as int, start + size);
    let total: usize = words.len();
    let mut part: Vec<Vec<char>> = Vec::new();
    let mut shared: usize = 0;
    assert(window.take(0) =~= Seq::<Seq<char>>::empty());
    assert(char_texts(part@) =~= Seq::<Seq<char>>::empty());
    for i in 0..size
        invariant
            start + size <= total,
            total == words@.len(),
            window == char_texts(words@).subrange(start as int, start + size),
            char_texts(part@) == window.take(i as int),
            shared == overlap(window.take(i as int), char_texts(quote_words@)),
            shared <= i,
    {
        assert(window.take(i + 1).drop_last() == window.take(i as int));
        assert(window.take(i + 1).last() == words@[start + i]@);
        if holds_word(quote_words, &words[start + i]) {
            shared = shared + 1;
        }
        let ghost before = part@;
        let mut w: Vec<char> = Vec::new();
        w.extend_from_slice(words[start + i].as_slice());
        assert(w@ =~= words@[start + i]@);
        part.push(w);
        assert(char_texts(part@) =~= char_texts(before).push(w@));
    }
    assert(window.take(size as int) == window);
    if (shared as u128) * 5 < (quote_words.len() as u128) * 3 {
        return false;
    }
    let text = text_of(joined(&part, " ").as_slice());
    close_texts(text.as_str(), quote)
}

/// Whether some window of the page is close to the quote.
fn find_window(page: &[char], quote: &str) -> (r: bool)
    ensures
        r == has_window(page@, quote@),
{
    let words = words_of_normal(page);
    let cs = chars_of(quote);
    let quote_words = words_of_normal(cs.as_slice());
    let n: usize = quote_words.len();
    let total: usize = words.len();
    let ghost ws = char_texts(words@);
    let ghost qs = char_texts(quote_words@);
    if n == 0 || total < n {
        return false;
    }
    let first: usize = if n > 1 {
        n - 1
    } else {
        1
    };
    let last: usize = if n < total {
        n + 1
    } else {
        n
    };
    for step in 0..(last - first + 1)
        invariant
            total == words@.len(),
            ws == char_texts(words@),
            qs == char_texts(quote_words@),
            ws == spaced_words(page@),
            qs == spaced_words(quote@),
            n == qs.len(),
            0 < n <= total,
            first == (if n > 1 {
                n - 1
            } else {
                1
            }),
            last == (if n < total {
                n + 1
            } else {
                n as int
            }),
            forall|k: int, z: int|
                first <= z < first + step ==> !(#[trigger] matches_at(ws, k, z, quote@, qs)),
    {
        let size: usize = first + step;
        for start in 0..(total - size + 1)
            invariant
                total == words@.len(),
                size <= total,
                ws == char_texts(words@),
                qs == char_texts(quote_words@),
                ws == spaced_words(page@),
                qs == spaced_words(quote@),
                n == qs.len(),
                0 < n <= total,
                1 <= size,
                n - 1 <= size <= n + 1,
                forall|k: int|
                    0 <= k < start ==> !(#[trigger] matches_at(ws, k, size as int, quote@, qs)),
        {
            if window_at(&words, start, size, quote, &quote_words) {
                assert(matches_at(ws, start as int, size as int, quote@, qs));
                return true;
            }
        }
    }
    false
}

/// How a normalised page carries a normalised quote.
pub fn standing_on(page: &str, quote: &str) -> (r: Standing)
    ensures
        r == standing_of(page@, quote@),
{
    if quote.unicode_len() == 0 {
        return Standing::Present;
    }
    let cs = chars_of(page);
    if contains(cs.as_slice(), quote) {
        Standing::Present
    } else if find_window(cs.as_slice(), quote) {
        Standing::Moved
    } else {
        Standing::Missing
    }
}

/// How a normalised page carries a quote.
pub fn quote_standing(page: &str, quote: &str) -> (r: Standing)
    ensures
        r == standing(page@, quote@),
{
    let q = normalise(quote);
    standing_on(page, q.as_str())
}

/// `present`, `moved`, or `missing` for one quote against a normalised page.
pub fn match_quote(page: &str, quote: &str) -> (r: &'static str)
    ensures
        r@ == standing_word(standing(page@, quote@)),
{
    match quote_standing(page, quote) {
        Standing::Present => "present",
        Standing::Moved => "moved",
        Standing::Missing => "missing",
    }
}

}
