//! What a page says, and what stands on it.

use vstd::prelude::*;

use crate::commands::source_check::quotes::{
    blanked, decoded, edit_distance, letter_or_digit, letters, normal, page_text, plain_letters, standing, untagged,
    Standing,
};
use crate::pattern::{regex_matches, rewrite, Hit};
use crate::text::{
    first_of, has, is_white_space, join, lemma_first_of, lemma_has_part, replace, starts, trim_end,
    trim_start, word_length, words,
};

verus! {

// ---------------------------------------------------------------------------
// Entities
// ---------------------------------------------------------------------------

/// The ways a page may write a character: as it is, or as an entity.
pub open spec fn entity(way: int) -> Seq<char> {
    if way == 1 {
        "&nbsp;"@
    } else if way == 2 {
        "&amp;"@
    } else if way == 3 {
        "&lt;"@
    } else if way == 4 {
        "&gt;"@
    } else if way == 5 {
        "&quot;"@
    } else if way == 6 {
        "&#39;"@
    } else {
        "&#160;"@
    }
}

/// The character that an entity stands for.
pub open spec fn entity_char(way: int) -> char {
    if way == 2 {
        '&'
    } else if way == 3 {
        '<'
    } else if way == 4 {
        '>'
    } else if way == 5 {
        '"'
    } else if way == 6 {
        '\''
    } else {
        ' '
    }
}

/// A text with each character written in its way; those whose way is `done`
/// or less are written as they are.
pub open spec fn partly(s: Seq<char>, ways: Seq<int>, done: int) -> Seq<char>
    decreases s.len(),
{
    if s.len() == 0 {
        Seq::empty()
    } else {
        (if ways[0] > done {
            entity(ways[0])
        } else {
            seq![s[0]]
        }) + partly(s.skip(1), ways.skip(1), done)
    }
}

/// A text as a page may write it: way 0 is the character itself.
pub open spec fn written(s: Seq<char>, ways: Seq<int>) -> Seq<char> {
    partly(s, ways, 0)
}

/// A page may write a text in these ways: an entity stands for its character,
/// and no ampersand comes before a character that could make an entity of it.
pub open spec fn may_write(s: Seq<char>, ways: Seq<int>) -> bool {
    &&& ways.len() == s.len()
    &&& forall|i: int|
        0 <= i < s.len() ==> 0 <= #[trigger] ways[i] <= 7 && (ways[i] > 0 ==> s[i] == entity_char(
            ways[i],
        ))
    &&& forall|i: int, j: int|
        0 <= i && j == i + 1 && j < s.len() && #[trigger] s[i] == '&' ==> !opens_entity(
            #[trigger] s[j],
        )
}

/// The first letter of the name of an entity.
pub open spec fn opens_entity(c: char) -> bool {
    c == 'n' || c == 'a' || c == 'l' || c == 'g' || c == 'q' || c == '#'
}

proof fn lemma_entity(way: int)
    requires
        1 <= way <= 7,
    ensures
        entity(way).len() >= 4,
        entity(way)[0] == '&',
        opens_entity(entity(way)[1]),
        forall|i: int| 1 <= i < entity(way).len() ==> entity(way)[i] != '&',
{
    reveal_strlit("&nbsp;");
    reveal_strlit("&amp;");
    reveal_strlit("&lt;");
    reveal_strlit("&gt;");
    reveal_strlit("&quot;");
    reveal_strlit("&#39;");
    reveal_strlit("&#160;");
}

proof fn lemma_entities_apart(a: int, b: int, rest: Seq<char>)
    requires
        1 <= a <= 7,
        1 <= b <= 7,
        a != b,
    ensures
        !starts(entity(a) + rest, entity(b)),
{
    reveal_strlit("&nbsp;");
    reveal_strlit("&amp;");
    reveal_strlit("&lt;");
    reveal_strlit("&gt;");
    reveal_strlit("&quot;");
    reveal_strlit("&#39;");
    reveal_strlit("&#160;");
    let s = entity(a) + rest;
    let p = entity(b);
    lemma_entity(a);
    lemma_entity(b);
    if starts(s, p) {
        assert(s.take(p.len() as int)[1] == s[1]);
        assert(s.take(p.len() as int)[2] == s[2]);
        assert(s[1] == entity(a)[1]);
        assert(s[2] == entity(a)[2]);
    }
}

/// Replacing passes over a text without the first character of what is
/// replaced.
proof fn lemma_passes_over(x: Seq<char>, rest: Seq<char>, p: Seq<char>, by: Seq<char>)
    requires
        p.len() > 0,
        forall|i: int| 0 <= i < x.len() ==> x[i] != p[0],
    ensures
        replace(x + rest, p, by) == x + replace(rest, p, by),
    decreases x.len(),
{
    let s = x + rest;
    if x.len() == 0 {
        assert(s =~= rest);
        assert(x + replace(rest, p, by) =~= replace(rest, p, by));
    } else {
        if starts(s, p) {
            assert(s.take(p.len() as int)[0] == s[0]);
        }
        let more = x.skip(1);
        assert(s.skip(1) =~= more + rest);
        assert forall|i: int| 0 <= i < more.len() implies more[i] != p[0] by {
            assert(more[i] == x[i + 1]);
        }
        lemma_passes_over(more, rest, p, by);
        assert(seq![s[0]] + (more + replace(rest, p, by)) =~= x + replace(rest, p, by));
    }
}

/// Replacing goes past an ampersand that opens nothing.
proof fn lemma_goes_past(x: Seq<char>, rest: Seq<char>, p: Seq<char>, by: Seq<char>)
    requires
        x.len() > 0,
        p.len() > 0,
        p[0] == '&',
        !starts(x + rest, p),
        forall|i: int| 1 <= i < x.len() ==> x[i] != '&',
    ensures
        replace(x + rest, p, by) == x + replace(rest, p, by),
{
    let s = x + rest;
    let more = x.skip(1);
    assert(s.skip(1) =~= more + rest);
    assert forall|i: int| 0 <= i < more.len() implies more[i] != p[0] by {
        assert(more[i] == x[i + 1]);
    }
    lemma_passes_over(more, rest, p, by);
    assert(seq![s[0]] + (more + replace(rest, p, by)) =~= x + replace(rest, p, by));
}

proof fn lemma_one_entity(s: Seq<char>, ways: Seq<int>, k: int)
    requires
        may_write(s, ways),
        1 <= k <= 7,
    ensures
        replace(partly(s, ways, k - 1), entity(k), seq![entity_char(k)]) == partly(s, ways, k),
    decreases s.len(),
{
    let p = entity(k);
    let by = seq![entity_char(k)];
    lemma_entity(k);
    if s.len() > 0 {
        let more = s.skip(1);
        let other = ways.skip(1);
        assert(may_write(more, other)) by {
            assert forall|i: int| 0 <= i < more.len() implies 0 <= #[trigger] other[i] <= 7 && (
            other[i] > 0 ==> more[i] == entity_char(other[i])) by {
                assert(other[i] == ways[i + 1] && more[i] == s[i + 1]);
            }
            assert forall|i: int, j: int|
                0 <= i && j == i + 1 && j < more.len() && #[trigger] more[i]
                    == '&' implies !opens_entity(#[trigger] more[j]) by {
                assert(more[i] == s[i + 1] && more[j] == s[j + 1]);
            }
        }
        lemma_one_entity(more, other, k);
        let rest = partly(more, other, k - 1);
        let way = ways[0];
        assert(0 <= way <= 7);
        let all = partly(s, ways, k - 1);
        if way == k {
            assert(all == p + rest);
            assert(all.take(p.len() as int) =~= p);
            assert(all.skip(p.len() as int) =~= rest);
            assert(s[0] == entity_char(k));
        } else if way > k {
            lemma_entities_apart(way, k, rest);
            lemma_entity(way);
            lemma_goes_past(entity(way), rest, p, by);
        } else {
            let x = seq![s[0]];
            assert(all == x + rest);
            if starts(all, p) {
                assert(all.take(p.len() as int)[0] == all[0]);
                assert(all.take(p.len() as int)[1] == all[1]);
                assert(all[0] == s[0]);
                assert(all[1] == rest[0]);
                assert(more.len() > 0);
                if other[0] > k - 1 {
                    lemma_entity(other[0]);
                    assert(rest[0] == '&');
                } else {
                    assert(rest[0] == more[0]);
                    assert(s[0] == '&' && more[0] == s[1]);
                }
            }
            lemma_goes_past(x, rest, p, by);
        }
    }
}

proof fn lemma_all_done(s: Seq<char>, ways: Seq<int>)
    requires
        may_write(s, ways),
    ensures
        partly(s, ways, 7) == s,
    decreases s.len(),
{
    if s.len() > 0 {
        let more = s.skip(1);
        let other = ways.skip(1);
        assert(may_write(more, other)) by {
            assert forall|i: int| 0 <= i < more.len() implies 0 <= #[trigger] other[i] <= 7 && (
            other[i] > 0 ==> more[i] == entity_char(other[i])) by {
                assert(other[i] == ways[i + 1] && more[i] == s[i + 1]);
            }
            assert forall|i: int, j: int|
                0 <= i && j == i + 1 && j < more.len() && #[trigger] more[i]
                    == '&' implies !opens_entity(#[trigger] more[j]) by {
                assert(more[i] == s[i + 1] && more[j] == s[j + 1]);
            }
        }
        lemma_all_done(more, other);
        assert(ways[0] <= 7);
        assert(seq![s[0]] + more =~= s);
    } else {
        assert(partly(s, ways, 7) =~= s);
    }
}

/// Decoding gives back the text, whichever of its characters a page writes as
/// entities: spaces, ampersands, angle brackets, quotation marks and
/// apostrophes.
pub proof fn decoding_undoes_writing(s: Seq<char>, ways: Seq<int>)
    requires
        may_write(s, ways),
    ensures
        decoded(written(s, ways)) == s,
{
    reveal_strlit(" ");
    reveal_strlit("&");
    reveal_strlit("<");
    reveal_strlit(">");
    reveal_strlit("\"");
    reveal_strlit("'");
    assert(" "@ =~= seq![' ']);
    assert("&"@ =~= seq!['&']);
    assert("<"@ =~= seq!['<']);
    assert(">"@ =~= seq!['>']);
    assert("\""@ =~= seq!['"']);
    assert("'"@ =~= seq!['\'']);
    lemma_one_entity(s, ways, 1);
    lemma_one_entity(s, ways, 2);
    lemma_one_entity(s, ways, 3);
    lemma_one_entity(s, ways, 4);
    lemma_one_entity(s, ways, 5);
    lemma_one_entity(s, ways, 6);
    lemma_one_entity(s, ways, 7);
    lemma_all_done(s, ways);
}

// ---------------------------------------------------------------------------
// White space
// ---------------------------------------------------------------------------

/// Words one space apart, with nothing around them.
pub open spec fn single_spaced(s: Seq<char>) -> bool {
    &&& forall|i: int| 0 <= i < s.len() && is_white_space(#[trigger] s[i]) ==> s[i] == ' '
    &&& s.len() > 0 ==> !is_white_space(s[0]) && !is_white_space(s.last())
    &&& forall|i: int, j: int|
        0 <= i && j == i + 1 && j < s.len() && #[trigger] s[i] == ' ' ==> !is_white_space(
            #[trigger] s[j],
        )
}

proof fn lemma_join_front(first: Seq<char>, rest: Seq<Seq<char>>, sep: Seq<char>)
    requires
        rest.len() > 0,
    ensures
        join(seq![first] + rest, sep) == first + sep + join(rest, sep),
    decreases rest.len(),
{
    let all = seq![first] + rest;
    assert(all.drop_last() =~= seq![first] + rest.drop_last());
    assert(all.last() == rest.last());
    if rest.len() == 1 {
        assert(all.drop_last() =~= seq![first]);
        assert(join(seq![first], sep) == first);
        assert(join(rest, sep) == rest[0]);
    } else {
        lemma_join_front(first, rest.drop_last(), sep);
        assert(join(all, sep) =~= first + sep + join(rest, sep));
    }
}

proof fn lemma_word(s: Seq<char>)
    ensures
        word_length(s) <= s.len(),
        forall|i: int| 0 <= i < word_length(s) ==> !is_white_space(#[trigger] s[i]),
        word_length(s) < s.len() ==> is_white_space(s[word_length(s) as int]),
    decreases s.len(),
{
    if s.len() > 0 && !is_white_space(s[0]) {
        lemma_word(s.skip(1));
        assert forall|i: int| 0 <= i < word_length(s) implies !is_white_space(#[trigger] s[i]) by {
            if i > 0 {
                assert(s[i] == s.skip(1)[i - 1]);
            }
        }
    }
}

proof fn lemma_start(s: Seq<char>)
    ensures
        trim_start(s).len() <= s.len(),
        trim_start(s).len() > 0 ==> !is_white_space(trim_start(s)[0]),
        words(trim_start(s)) == words(s),
    decreases s.len(),
{
    if s.len() > 0 && is_white_space(s[0]) {
        lemma_start(s.skip(1));
        assert(trim_start(s) == trim_start(s.skip(1)));
    }
    let t = trim_start(s);
    assert(trim_start(t) == t) by {
        lemma_start_stays(s);
    }
}

proof fn lemma_start_stays(s: Seq<char>)
    ensures
        trim_start(trim_start(s)) == trim_start(s),
    decreases s.len(),
{
    if s.len() > 0 && is_white_space(s[0]) {
        lemma_start_stays(s.skip(1));
    }
}

/// Words that stand one space apart already stay as they are.
proof fn lemma_spaced_stays(s: Seq<char>)
    requires
        single_spaced(s),
    ensures
        join(words(s), " "@) == s,
    decreases s.len(),
{
    reveal_strlit(" ");
    assert(" "@ =~= seq![' ']);
    if s.len() == 0 {
        assert(join(words(s), " "@) =~= s);
    } else {
        assert(trim_start(s) == s);
        lemma_word(s);
        let n = word_length(s) as int;
        let behind = s.skip(n);
        if n == s.len() {
            assert(behind.len() == 0);
            assert(words(behind) =~= Seq::<Seq<char>>::empty());
            assert(s.take(n) =~= s);
            assert(words(s) =~= seq![s]);
        } else {
            assert(is_white_space(s[n]));
            assert(s[n] == ' ');
            assert(n + 1 < s.len());
            let rest = s.skip(n + 1);
            assert(behind.skip(1) =~= rest);
            assert(behind[0] == ' ');
            assert(rest[0] == s[n + 1]);
            assert(!is_white_space(s[n + 1]));
            assert(trim_start(rest) == rest);
            assert(trim_start(behind) == rest);
            lemma_start(behind);
            assert(words(behind) == words(rest));
            assert(single_spaced(rest)) by {
                assert forall|i: int| 0 <= i < rest.len() && is_white_space(
                    #[trigger] rest[i],
                ) implies rest[i] == ' ' by {
                    assert(rest[i] == s[n + 1 + i]);
                }
                assert(rest.last() == s.last());
                assert forall|i: int, j: int|
                    0 <= i && j == i + 1 && j < rest.len() && #[trigger] rest[i]
                        == ' ' implies !is_white_space(#[trigger] rest[j]) by {
                    assert(rest[i] == s[n + 1 + i] && rest[j] == s[n + 1 + j]);
                }
            }
            lemma_spaced_stays(rest);
            if words(rest).len() == 0 {
                assert(join(words(rest), " "@).len() == 0);
            }
            lemma_join_front(s.take(n), words(rest), " "@);
            assert(s.take(n) + " "@ + rest =~= s);
        }
    }
}

/// A word: something, and no white space in it.
pub open spec fn is_word(w: Seq<char>) -> bool {
    w.len() > 0 && forall|i: int| 0 <= i < w.len() ==> !is_white_space(#[trigger] w[i])
}

proof fn lemma_words(s: Seq<char>)
    ensures
        forall|i: int| 0 <= i < words(s).len() ==> is_word(#[trigger] words(s)[i]),
    decreases s.len(),
{
    let t = trim_start(s);
    lemma_start(s);
    if t.len() > 0 {
        lemma_word(t);
        let n = word_length(t) as int;
        assert(n > 0);
        let w = t.take(n);
        assert(is_word(w)) by {
            assert forall|i: int| 0 <= i < w.len() implies !is_white_space(#[trigger] w[i]) by {
                assert(w[i] == t[i]);
            }
        }
        lemma_words(t.skip(n));
        let rest = words(t.skip(n));
        assert forall|i: int| 0 <= i < words(s).len() implies is_word(#[trigger] words(s)[i]) by {
            if i > 0 {
                assert(words(s)[i] == rest[i - 1]);
            }
        }
    }
}

proof fn lemma_joined_words(list: Seq<Seq<char>>)
    requires
        forall|i: int| 0 <= i < list.len() ==> is_word(#[trigger] list[i]),
    ensures
        single_spaced(join(list, " "@)),
        list.len() > 0 ==> join(list, " "@).len() > 0,
    decreases list.len(),
{
    reveal_strlit(" ");
    assert(" "@ =~= seq![' ']);
    let s = join(list, " "@);
    if list.len() == 1 {
        assert(is_word(list[0]));
        assert forall|i: int, j: int|
            0 <= i && j == i + 1 && j < s.len() && #[trigger] s[i] == ' ' implies !is_white_space(
            #[trigger] s[j],
        ) by {
            assert(!is_white_space(s[j]));
        }
    } else if list.len() > 1 {
        let front = list.drop_last();
        assert forall|i: int| 0 <= i < front.len() implies is_word(#[trigger] front[i]) by {
            assert(front[i] == list[i]);
        }
        lemma_joined_words(front);
        let a = join(front, " "@);
        let w = list.last();
        assert(is_word(list[list.len() - 1]));
        let n = a.len() as int;
        assert(s == a + " "@ + w);
        assert(s[n] == ' ');
        assert(s[0] == a[0]);
        assert(s.last() == w[w.len() - 1]);
        assert forall|i: int| 0 <= i < s.len() && is_white_space(#[trigger] s[i]) implies s[i]
            == ' ' by {
            if i < n {
                assert(s[i] == a[i]);
            } else if i > n {
                assert(s[i] == w[i - n - 1]);
            }
        }
        assert forall|i: int, j: int|
            0 <= i && j == i + 1 && j < s.len() && #[trigger] s[i] == ' ' implies !is_white_space(
            #[trigger] s[j],
        ) by {
            if j < n {
                assert(s[i] == a[i] && s[j] == a[j]);
            } else if j == n {
                assert(s[i] == a[n - 1]);
                assert(!is_white_space(a.last()));
                assert(is_white_space(' '));
            } else {
                assert(s[j] == w[j - n - 1]);
            }
        }
    }
}

/// The text of a page is words one space apart, whatever the page.
pub proof fn a_page_text_is_single_spaced(html: Seq<char>)
    ensures
        single_spaced(page_text(html)),
{
    let s = decoded(untagged(html));
    lemma_words(s);
    lemma_joined_words(words(s));
}

proof fn lemma_no_char(s: Seq<char>, c: char)
    requires
        forall|i: int| 0 <= i < s.len() ==> s[i] != c,
    ensures
        !(has(s, seq![c])),
{
    let p = seq![c];
    lemma_first_of(s, p);
    if has(s, p) {
        let i = first_of(s, p)->Some_0;
        assert(s.skip(i).take(1)[0] == s[i]);
    }
}

proof fn lemma_no_tag(s: Seq<char>, ways: Seq<int>)
    requires
        may_write(s, ways),
        forall|i: int| 0 <= i < s.len() && ways[i] == 0 ==> s[i] != '<',
    ensures
        forall|i: int| 0 <= i < written(s, ways).len() ==> written(s, ways)[i] != '<',
    decreases s.len(),
{
    if s.len() > 0 {
        let more = s.skip(1);
        let other = ways.skip(1);
        assert(may_write(more, other)) by {
            assert forall|i: int| 0 <= i < more.len() implies 0 <= #[trigger] other[i] <= 7 && (
            other[i] > 0 ==> more[i] == entity_char(other[i])) by {
                assert(other[i] == ways[i + 1] && more[i] == s[i + 1]);
            }
            assert forall|i: int, j: int|
                0 <= i && j == i + 1 && j < more.len() && #[trigger] more[i]
                    == '&' implies !opens_entity(#[trigger] more[j]) by {
                assert(more[i] == s[i + 1] && more[j] == s[j + 1]);
            }
        }
        assert forall|i: int| 0 <= i < more.len() && other[i] == 0 implies more[i] != '<' by {
            assert(other[i] == ways[i + 1] && more[i] == s[i + 1]);
        }
        lemma_no_tag(more, other);
        let first = if ways[0] > 0 {
            entity(ways[0])
        } else {
            seq![s[0]]
        };
        let all = written(s, ways);
        assert(0 <= ways[0] <= 7);
        assert forall|i: int| 0 <= i < all.len() implies all[i] != '<' by {
            if i < first.len() {
                assert(all[i] == first[i]);
                if ways[0] > 0 {
                    lemma_entity_free_of_tags(ways[0]);
                }
            } else {
                assert(all[i] == written(more, other)[i - first.len()]);
            }
        }
    }
}

proof fn lemma_entity_free_of_tags(way: int)
    requires
        1 <= way <= 7,
    ensures
        forall|i: int| 0 <= i < entity(way).len() ==> entity(way)[i] != '<',
{
    reveal_strlit("&nbsp;");
    reveal_strlit("&amp;");
    reveal_strlit("&lt;");
    reveal_strlit("&gt;");
    reveal_strlit("&quot;");
    reveal_strlit("&#39;");
    reveal_strlit("&#160;");
}

/// A page without tags that writes a text, some of its characters as
/// entities, says the words of that text, one space apart; where they stand
/// so already, it says the text itself.
pub proof fn a_page_says_what_it_writes(s: Seq<char>, ways: Seq<int>)
    requires
        may_write(s, ways),
        forall|i: int| 0 <= i < s.len() && ways[i] == 0 ==> s[i] != '<',
    ensures
        page_text(written(s, ways)) == join(words(s), " "@),
        single_spaced(s) ==> page_text(written(s, ways)) == s,
{
    decoding_undoes_writing(s, ways);
    lemma_no_tag(s, ways);
    lemma_no_char(written(s, ways), '<');
    reveal_strlit("<");
    assert("<"@ =~= seq!['<']);
    if single_spaced(s) {
        lemma_spaced_stays(s);
    }
}

// ---------------------------------------------------------------------------
// Quotes
// ---------------------------------------------------------------------------

proof fn lemma_letters_go_on(x: Seq<char>, q: Seq<char>)
    ensures
        letters(x).1 ==> letters(x + q).0 == letters(x).0 + letters(q).0 && letters(x + q).1
            == letters(q).1,
        exists|more: Seq<char>| letters(x + q).0 == #[trigger] (letters(x).0 + more),
    decreases q.len(),
{
    if q.len() == 0 {
        assert(x + q =~= x);
        assert(letters(x).0 + letters(q).0 =~= letters(x).0);
        assert(letters(x).0 + Seq::<char>::empty() =~= letters(x).0);
    } else {
        let front = q.drop_last();
        assert((x + q).drop_last() =~= x + front);
        assert((x + q).last() == q.last());
        lemma_letters_go_on(x, front);
        let more = choose|more: Seq<char>| letters(x + front).0 == #[trigger] (letters(x).0 + more);
        if letter_or_digit(q.last()) {
            let low = crate::commands::source_check::quotes::lowered(q.last());
            assert(letters(x + q).0 =~= letters(x).0 + (more + low));
            assert(letters(x).0 + letters(front).0 + low =~= letters(x).0 + (letters(front).0
                + low));
        } else if !letters(x + front).1 {
            assert(letters(x + q).0 =~= letters(x).0 + more.push(' '));
            assert((letters(x).0 + letters(front).0).push(' ') =~= letters(x).0 + letters(
                front,
            ).0.push(' '));
        }
    }
}

proof fn lemma_end(u: Seq<char>, v: Seq<char>)
    requires
        u.len() > 0,
        !is_white_space(u.last()),
    ensures
        trim_end(u + v) == u + trim_end(v),
    decreases v.len(),
{
    let s = u + v;
    if v.len() == 0 {
        assert(s =~= u);
        assert(u + trim_end(v) =~= u);
    } else if is_white_space(v.last()) {
        assert(s.last() == v.last());
        assert(s.drop_last() =~= u + v.drop_last());
        lemma_end(u, v.drop_last());
    } else {
        assert(s.last() == v.last());
    }
}

proof fn lemma_end_front(s: Seq<char>)
    ensures
        exists|cut: Seq<char>| s == #[trigger] (trim_end(s) + cut),
        trim_end(s).len() > 0 ==> !is_white_space(trim_end(s).last()),
    decreases s.len(),
{
    if s.len() > 0 && is_white_space(s.last()) {
        let front = s.drop_last();
        lemma_end_front(front);
        let cut = choose|cut: Seq<char>| front == #[trigger] (trim_end(front) + cut);
        assert(front == trim_end(front) + cut);
        assert(trim_end(s) == trim_end(front));
        assert(s =~= front.push(s.last()));
        assert((trim_end(front) + cut).push(s.last()) =~= trim_end(front) + cut.push(s.last()));
        assert(s == trim_end(s) + cut.push(s.last()));
    } else {
        assert(s =~= trim_end(s) + Seq::<char>::empty());
    }
}

/// The letters of a passage that is not part of a longer word stand in those
/// of the text around it.
proof fn lemma_letters_within(a: Seq<char>, q: Seq<char>, b: Seq<char>)
    requires
        a.len() == 0 || !letter_or_digit(a.last()),
        b.len() == 0 || !letter_or_digit(b[0]),
    ensures
        has(plain_letters(a + q + b), plain_letters(q)),
{
    let p = plain_letters(q);
    lemma_letters_go_on(a, q);
    if a.len() > 0 {
        assert(letters(a).1);
    }
    lemma_letters_go_on(a + q, b);
    let more = choose|more: Seq<char>|
        letters(a + q + b).0 == #[trigger] (letters(a + q).0 + more);
    lemma_end_front(letters(q).0);
    let cut = choose|cut: Seq<char>| letters(q).0 == #[trigger] (trim_end(letters(q).0) + cut);
    let front = letters(a).0 + p;
    let all = letters(a + q + b).0;
    assert(all =~= front + (cut + more));
    if p.len() > 0 {
        assert(front.last() == p.last());
        lemma_end(front, cut + more);
        lemma_has_part(letters(a).0, p, trim_end(cut + more));
        assert(trim_end(all) =~= letters(a).0 + p + trim_end(cut + more));
    } else {
        let none = Seq::<char>::empty();
        assert(p =~= none);
        lemma_has_part(trim_end(all), none, none);
        assert(trim_end(all) + none + none =~= trim_end(all));
    }
}

/// A quote is present on a page that writes it, in whatever ways: quotation
/// marks, apostrophes and spaces may be entities, and any text may stand
/// around it as long as it is not part of a longer word there.
pub proof fn a_quote_is_present_however_it_is_written(
    a: Seq<char>,
    q: Seq<char>,
    b: Seq<char>,
    ways: Seq<int>,
)
    requires
        may_write(a + q + b, ways),
        forall|i: int| 0 <= i < (a + q + b).len() && ways[i] == 0 ==> (a + q + b)[i] != '<',
        single_spaced(a + q + b),
        forall|i: int| 0 <= i < (a + q + b).len() ==> (a + q + b)[i] != '[',
        a.len() == 0 || !letter_or_digit(a.last()),
        b.len() == 0 || !letter_or_digit(b[0]),
    ensures
        standing(normal(page_text(written(a + q + b, ways))), q) == Standing::Present,
{
    let s = a + q + b;
    a_page_says_what_it_writes(s, ways);
    reveal_strlit("[");
    assert("["@ =~= seq!['[']);
    lemma_no_char(s, '[');
    assert forall|i: int| 0 <= i < q.len() implies q[i] != '[' by {
        assert(q[i] == s[a.len() + i]);
    }
    lemma_no_char(q, '[');
    lemma_letters_within(a, q, b);
}

// ---------------------------------------------------------------------------
// Markup
// ---------------------------------------------------------------------------

/// A text with a space for each match of a pattern.
pub open spec fn spaced_out(pattern: Seq<char>, s: Seq<char>) -> Seq<char> {
    let m = regex_matches(pattern, s);
    rewrite(m.0, m.1, |h: Hit| seq![' '])
}

proof fn lemma_spaced_out(pattern: Seq<char>, s: Seq<char>)
    ensures
        blanked(pattern, s) == spaced_out(pattern, s),
{
    reveal_strlit(" ");
    assert(" "@ =~= seq![' ']);
    assert((|h: Hit| " "@) =~= (|h: Hit| seq![' ']));
}

/// A page with markup is read without it: first each script, style and
/// fallback block, then each reference, then each tag is a space; what is
/// left has its entities decoded and its words one space apart.
pub proof fn markup_is_read_as_spaces(html: Seq<char>)
    ensures
        ({
            let scripts =
                r"(?is)<(script|style|noscript)[^>]*>.*?</(script|style|noscript)\s*>"@;
            let references =
                r#"(?is)<sup[^>]*class="[^"]*\breference\b[^"]*"[^>]*>.*?</sup\s*>"#@;
            let tags = r"(?s)<[^>]+>"@;
            let left = if has(html, "<"@) {
                spaced_out(tags, spaced_out(references, spaced_out(scripts, html)))
            } else {
                html
            };
            page_text(html) == join(words(decoded(left)), " "@)
        }),
{
    let scripts = r"(?is)<(script|style|noscript)[^>]*>.*?</(script|style|noscript)\s*>"@;
    let references = r#"(?is)<sup[^>]*class="[^"]*\breference\b[^"]*"[^>]*>.*?</sup\s*>"#@;
    lemma_spaced_out(scripts, html);
    lemma_spaced_out(references, spaced_out(scripts, html));
    lemma_spaced_out(r"(?s)<[^>]+>"@, spaced_out(references, spaced_out(scripts, html)));
}

/// Reference markers are read as spaces before a text is compared.
pub proof fn reference_markers_are_read_as_spaces(s: Seq<char>)
    ensures
        has(s, "["@) ==> normal(s) == plain_letters(
            spaced_out(
                r"(?i)\[\s*(?:\d{1,3}|[a-z]{1,2}|note \d{1,3}|citation needed|clarification needed|dubious|verification needed|(?:when|who|which|where|why)\?)\s*\]"@,
                s,
            ),
        ),
        !(has(s, "["@)) ==> normal(s) == plain_letters(s),
{
    lemma_spaced_out(
        r"(?i)\[\s*(?:\d{1,3}|[a-z]{1,2}|note \d{1,3}|citation needed|clarification needed|dubious|verification needed|(?:when|who|which|where|why)\?)\s*\]"@,
        s,
    );
}

// ---------------------------------------------------------------------------
// Distances
// ---------------------------------------------------------------------------

/// Characters behind both texts make them no further apart.
proof fn lemma_distance_behind(a: Seq<char>, b: Seq<char>, t: Seq<char>)
    ensures
        edit_distance(a + t, b + t) <= edit_distance(a, b),
    decreases t.len(),
{
    if t.len() > 0 {
        let front = t.drop_last();
        lemma_distance_behind(a, b, front);
        assert((a + t).drop_last() =~= a + front);
        assert((b + t).drop_last() =~= b + front);
        assert((a + t).last() == t.last() && (b + t).last() == t.last());
    } else {
        assert(a + t =~= a);
        assert(b + t =~= b);
    }
}

proof fn lemma_distance_self(a: Seq<char>)
    ensures
        edit_distance(a, a) == 0,
    decreases a.len(),
{
    if a.len() > 0 {
        lemma_distance_self(a.drop_last());
    }
}

proof fn lemma_distance_zero(a: Seq<char>, b: Seq<char>)
    requires
        edit_distance(a, b) == 0,
    ensures
        a == b,
    decreases a.len() + b.len(),
{
    if a.len() > 0 && b.len() > 0 {
        lemma_distance_zero(a.drop_last(), b.drop_last());
        assert(a =~= a.drop_last().push(a.last()));
        assert(b =~= b.drop_last().push(b.last()));
    } else {
        assert(a =~= b);
    }
}

/// Two texts are no distance apart just if they are the same; a character
/// more, a character less and another character are each one step apart.
pub proof fn a_changed_character_is_one_step(
    a: Seq<char>,
    x: char,
    y: char,
    b: Seq<char>,
    other: Seq<char>,
)
    ensures
        edit_distance(a, other) == 0 <==> a == other,
        x != y ==> edit_distance(a + seq![x] + b, a + seq![y] + b) == 1,
        edit_distance(a + seq![x] + b, a + b) == 1,
        edit_distance(a + b, a + seq![x] + b) == 1,
{
    lemma_distance_self(a);
    if edit_distance(a, other) == 0 {
        lemma_distance_zero(a, other);
    }
    let p = a + seq![x];
    let q = a + seq![y];
    assert(p.drop_last() =~= a && q.drop_last() =~= a);
    assert(edit_distance(p, q) <= 1);
    assert(edit_distance(p, a) <= 1) by {
        if a.len() > 0 {
            assert(edit_distance(p, a) <= edit_distance(p.drop_last(), a) + 1);
        }
    }
    assert(edit_distance(a, p) <= 1) by {
        if a.len() > 0 {
            assert(edit_distance(a, p) <= edit_distance(a, p.drop_last()) + 1);
        }
    }
    lemma_distance_behind(p, q, b);
    lemma_distance_behind(p, a, b);
    lemma_distance_behind(a, p, b);
    if edit_distance(p + b, q + b) == 0 {
        lemma_distance_zero(p + b, q + b);
        assert((p + b)[a.len() as int] == x && (q + b)[a.len() as int] == y);
    }
    if edit_distance(p + b, a + b) == 0 {
        lemma_distance_zero(p + b, a + b);
    }
    if edit_distance(a + b, p + b) == 0 {
        lemma_distance_zero(a + b, p + b);
    }
}

}
