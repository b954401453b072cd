//! What is asked of the web, what an answer says, and what becomes of quotes.

use vstd::prelude::*;
use vstd::utf8::encode_utf8;

use crate::commands::source_check::quotes::{
    edit_distance, has_window, letter_or_digit, letters, lowered, matches_at, normal, overlap,
    page_text, plain_letters, spaced_words, standing, standing_word, Standing,
};
use crate::commands::source_check::snapshots::candidates;
use crate::commands::source_check::urls::{clipped, host, percent_encoded, up_to};
use crate::commands::source_check::verdicts::{
    covered, drifted, lost, quotes_in, quotes_of, rank, verified, word_of, worst_rank,
    the_word_tells_of_the_worst_quote, StatusModel, VerdictModel,
};
use crate::commands::source_check::web::{
    answered, closest_of, live_of, recorded, request_target, snapshot_of, stamps_of, FetchModel,
    LiveModel, RequestModel, WebModel,
};
use crate::commands::sources::{SourceModel, TermModel};
use crate::digest::sha256;
use crate::json::{json_bool_at, json_rows, json_text_at};
use crate::number::hex;
use crate::order::lemma_contains_last;
use crate::text::{first_of, has, join, starts};

verus! {

// ---------------------------------------------------------------------------
// Requests and answers
// ---------------------------------------------------------------------------

/// What is fetched for a request: a page and a snapshot by their own URL; the
/// index of snapshots and the closest snapshot from the archive, with the
/// page's URL percent-encoded.
pub proof fn requests_have_their_urls(wayback: Seq<char>, cdx: Seq<char>, url: Seq<char>)
    ensures
        request_target(wayback, cdx, RequestModel::Page(url)) == url,
        request_target(wayback, cdx, RequestModel::Snapshot(url)) == url,
        request_target(wayback, cdx, RequestModel::Index(url)) == cdx + "?url="@
            + percent_encoded(url)
            + "&output=json&filter=statuscode:200&collapse=timestamp:6&limit=400"@,
        request_target(wayback, cdx, RequestModel::Lookup(url)) == wayback + "?url="@
            + percent_encoded(url),
{
}

/// What an answer with a status says: from 400 on a cited page is dead, a
/// snapshot cannot be read, and the archive has nothing; below, the text of
/// the body is compared, and its digest kept.
pub proof fn an_answer_goes_by_its_status(status: u16, body: Seq<char>, around: Seq<char>)
    ensures
        ({
            let fetch = FetchModel::Response { status, body };
            &&& status >= 400 ==> {
                &&& live_of(fetch) == LiveModel::Dead(status)
                &&& snapshot_of(fetch).page is None && snapshot_of(fetch).failure is None
                &&& stamps_of(fetch, around) == candidates(Seq::empty(), around)
                &&& closest_of(fetch) is None
            }
            &&& status < 400 ==> {
                &&& live_of(fetch) == LiveModel::Page {
                    status,
                    digest: hex(sha256(encode_utf8(page_text(body)))),
                    page: normal(page_text(body)),
                }
                &&& snapshot_of(fetch).page == Some(normal(page_text(body)))
                &&& snapshot_of(fetch).failure is None
                &&& json_rows(body) matches Some(rows) ==> stamps_of(fetch, around) == candidates(
                    rows,
                    around,
                )
                &&& json_bool_at(body, "/archived_snapshots/closest/available"@) == Some(true)
                    ==> closest_of(fetch) == json_text_at(
                    body,
                    "/archived_snapshots/closest/url"@,
                )
                &&& json_bool_at(body, "/archived_snapshots/closest/available"@) != Some(true)
                    ==> closest_of(fetch) is None
            }
        }),
{
}

/// An answer that never came says why, of a page and of a snapshot, and
/// nothing else.
pub proof fn no_answer_says_why(reason: Seq<char>, around: Seq<char>)
    ensures
        live_of(FetchModel::Unreachable(reason)) == LiveModel::Unreachable(reason),
        snapshot_of(FetchModel::Unreachable(reason)).page is None,
        snapshot_of(FetchModel::Unreachable(reason)).failure == Some(reason),
        stamps_of(FetchModel::Unreachable(reason), around) == candidates(Seq::empty(), around),
        closest_of(FetchModel::Unreachable(reason)) is None,
{
}

/// Once recorded, the answer to a request is known, and what was known of any
/// other request stays known as it was.
pub proof fn an_answer_is_recorded_for_its_request(
    web: WebModel,
    around: Seq<char>,
    request: RequestModel,
    fetch: FetchModel,
    other: RequestModel,
)
    ensures
        answered(recorded(web, around, request, fetch), request),
        other != request ==> answered(recorded(web, around, request, fetch), other) == answered(
            web,
            other,
        ),
        ({
            let now = recorded(web, around, request, fetch);
            match request {
                RequestModel::Page(url) => now.live[url] == live_of(fetch) && now.pages
                    == web.pages && now.stamps == web.stamps && now.lookups == web.lookups,
                RequestModel::Snapshot(url) => now.pages[url] == snapshot_of(fetch) && now.live
                    == web.live && now.stamps == web.stamps && now.lookups == web.lookups,
                RequestModel::Index(url) => now.stamps[url] == stamps_of(fetch, around)
                    && now.live == web.live && now.pages == web.pages && now.lookups
                    == web.lookups,
                RequestModel::Lookup(url) => now.lookups[url] == closest_of(fetch) && now.live
                    == web.live && now.pages == web.pages && now.stamps == web.stamps,
            }
        }),
{
}

// ---------------------------------------------------------------------------
// URLs
// ---------------------------------------------------------------------------

proof fn lemma_up_to(h: Seq<char>, rest: Seq<char>, set: Seq<char>)
    requires
        forall|i: int| 0 <= i < h.len() ==> !set.contains(#[trigger] h[i]),
        rest.len() == 0 || set.contains(rest[0]),
    ensures
        up_to(h + rest, set) == h,
    decreases h.len(),
{
    let s = h + rest;
    if h.len() == 0 {
        assert(s =~= rest);
        assert(up_to(s, set) =~= h);
    } else {
        assert(!set.contains(h[0]));
        assert(s[0] == h[0]);
        let more = h.skip(1);
        assert(s.skip(1) =~= more + rest);
        assert forall|i: int| 0 <= i < more.len() implies !set.contains(#[trigger] more[i]) by {
            assert(more[i] == h[i + 1]);
        }
        lemma_up_to(more, rest, set);
        assert(seq![h[0]] + more =~= h);
    }
}

proof fn lemma_first_mark(scheme: Seq<char>, rest: Seq<char>)
    requires
        forall|i: int| 0 <= i < scheme.len() ==> scheme[i] != ':',
    ensures
        first_of(scheme + "://"@ + rest, "://"@) == Some(scheme.len() as int),
    decreases scheme.len(),
{
    reveal_strlit("://");
    let p = "://"@;
    let s = scheme + p + rest;
    if scheme.len() == 0 {
        assert(s.take(3) =~= p);
    } else {
        if starts(s, p) {
            assert(s.take(3)[0] == scheme[0]);
        }
        let more = scheme.skip(1);
        assert(s.skip(1) =~= more + p + rest);
        assert forall|i: int| 0 <= i < more.len() implies more[i] != ':' by {
            assert(more[i] == scheme[i + 1]);
        }
        lemma_first_mark(more, rest);
    }
}

/// The host of a URL stands behind its scheme, up to a slash, a question mark
/// or a number sign.
pub proof fn a_host_stands_behind_the_scheme(
    scheme: Seq<char>,
    name: Seq<char>,
    rest: Seq<char>,
)
    requires
        forall|i: int| 0 <= i < scheme.len() ==> scheme[i] != ':',
        forall|i: int|
            0 <= i < name.len() ==> name[i] != '/' && name[i] != '?' && name[i] != '#',
        rest.len() == 0 || rest[0] == '/' || rest[0] == '?' || rest[0] == '#',
        !(has(name + rest, "://"@)),
    ensures
        host(scheme + "://"@ + name + rest) == Some(name),
{
    reveal_strlit("://");
    reveal_strlit("/?#");
    let url = scheme + "://"@ + name + rest;
    let tail = name + rest;
    assert(url =~= scheme + "://"@ + tail);
    lemma_first_mark(scheme, tail);
    assert(url.skip((scheme.len() + 3) as int) =~= tail);
    let set = "/?#"@;
    assert(set[0] == '/' && set[1] == '?' && set[2] == '#');
    assert forall|i: int| 0 <= i < name.len() implies !set.contains(#[trigger] name[i]) by {
        if set.contains(name[i]) {
            let k = choose|k: int| 0 <= k < set.len() && set[k] == name[i];
            assert(k == 0 || k == 1 || k == 2);
        }
    }
    lemma_up_to(name, rest, set);
}

/// A text without `://` has no host.
pub proof fn a_text_without_a_scheme_has_no_host(s: Seq<char>)
    requires
        !(has(s, "://"@)),
    ensures
        host(s) is None,
{
}

/// A passage is shown up to its first eighty characters.
pub proof fn long_passages_are_cut(s: Seq<char>)
    ensures
        s.len() <= 80 ==> clipped(s) == s,
        s.len() > 80 ==> clipped(s).len() == 81 && clipped(s).last() == '…' && starts(
            s,
            clipped(s).drop_last(),
        ),
{
    if s.len() > 80 {
        assert(clipped(s).drop_last() =~= s.take(80));
    }
}

// ---------------------------------------------------------------------------
// Where a quote stands
// ---------------------------------------------------------------------------

/// Two characters that are compared alike: two letters or digits with the
/// same lower case, or two characters that are neither.
pub open spec fn alike(c: char, d: char) -> bool {
    if letter_or_digit(c) {
        letter_or_digit(d) && lowered(c) == lowered(d)
    } else {
        !letter_or_digit(d)
    }
}

proof fn lemma_letters_alike(s: Seq<char>, t: Seq<char>)
    requires
        s.len() == t.len(),
        forall|i: int| 0 <= i < s.len() ==> alike(#[trigger] s[i], t[i]),
    ensures
        letters(s) == letters(t),
    decreases s.len(),
{
    if s.len() > 0 {
        let a = s.drop_last();
        let b = t.drop_last();
        assert forall|i: int| 0 <= i < a.len() implies alike(#[trigger] a[i], b[i]) by {
            assert(a[i] == s[i] && b[i] == t[i]);
        }
        lemma_letters_alike(a, b);
        assert(alike(s[s.len() - 1], t[s.len() - 1]));
    }
}

/// Neither the case of letters nor the kind of any other character matters
/// where texts are compared, and a run of other characters counts as one.
pub proof fn case_and_punctuation_do_not_matter(
    s: Seq<char>,
    t: Seq<char>,
    a: Seq<char>,
    x: char,
    y: char,
)
    requires
        s.len() == t.len(),
        forall|i: int| 0 <= i < s.len() ==> alike(#[trigger] s[i], t[i]),
        !letter_or_digit(x),
        !letter_or_digit(y),
    ensures
        plain_letters(s) == plain_letters(t),
        plain_letters(a.push(x).push(y)) == plain_letters(a.push(x)),
        alike('A', 'a') && alike('Z', 'z') && !alike('a', 'b') && !alike('a', ' '),
        alike('.', ',') && !alike('0', 'o'),
{
    lemma_letters_alike(s, t);
    assert(a.push(x).push(y).drop_last() =~= a.push(x));
    assert(a.push(x).drop_last() =~= a);
    assert(lowered('A')[0] == 'a' && lowered('Z')[0] == 'z');
    assert(lowered('A') =~= lowered('a'));
    assert(lowered('Z') =~= lowered('z'));
    assert(lowered('a')[0] == 'a' && lowered('b')[0] == 'b');
    assert(lowered('0')[0] == '0' && lowered('o')[0] == 'o');
}

proof fn lemma_overlap(window: Seq<Seq<char>>, quote: Seq<Seq<char>>)
    ensures
        overlap(window, quote) == window.filter(|w: Seq<char>| quote.contains(w)).len(),
    decreases window.len(),
{
    reveal(Seq::filter);
    if window.len() > 0 {
        lemma_overlap(window.drop_last(), quote);
    }
}

/// A window of a page reads like a quote: at least three fifths of the
/// quote's number of words are words of the quote, and the two texts differ in
/// at most a tenth of the characters of the longer.
pub open spec fn reads_like(
    window: Seq<Seq<char>>,
    quote: Seq<char>,
    quote_words: Seq<Seq<char>>,
) -> bool {
    let text = join(window, " "@);
    let longest = if text.len() >= quote.len() {
        text.len()
    } else {
        quote.len()
    };
    &&& window.filter(|w: Seq<char>| quote_words.contains(w)).len() * 5 >= quote_words.len() * 3
    &&& edit_distance(text, quote) * 10 <= longest
}

/// As many words of a page as a quote has, or one more or less, from a place
/// on read like the quote.
pub open spec fn window_at(page: Seq<char>, quote: Seq<char>, start: int, size: int) -> bool {
    let words = spaced_words(page);
    let n = spaced_words(quote).len();
    &&& size == n - 1 || size == n || size == n + 1
    &&& 1 <= size
    &&& 0 <= start
    &&& start + size <= words.len()
    &&& reads_like(words.subrange(start, start + size), quote, spaced_words(quote))
}

/// A quote is present where the page holds it word for word, or where it has
/// no letters; else it has moved where some window of the page, of no fewer
/// words than the quote in all, reads like it; else it is missing.
pub proof fn a_quote_stands_by_its_words(page: Seq<char>, quote: Seq<char>)
    ensures
        ({
            let q = normal(quote);
            let here = q.len() == 0 || has(page, q);
            let near = 0 < spaced_words(q).len() <= spaced_words(page).len() && exists|
                start: int,
                size: int,
            | #[trigger] window_at(page, q, start, size);
            &&& here ==> standing(page, quote) == Standing::Present
            &&& !here && near ==> standing(page, quote) == Standing::Moved
            &&& !here && !near ==> standing(page, quote) == Standing::Missing
        }),
        standing_word(Standing::Present) == "present"@,
        standing_word(Standing::Moved) == "moved"@,
        standing_word(Standing::Missing) == "missing"@,
{
    let q = normal(quote);
    let words = spaced_words(page);
    let qs = spaced_words(q);
    let n = qs.len() as int;
    assert forall|start: int, size: int| #[trigger]
        window_at(page, q, start, size) implies n - 1 <= size <= n + 1 && 1 <= size && matches_at(
        words,
        start,
        size,
        q,
        qs,
    ) by {
        lemma_overlap(words.subrange(start, start + size), qs);
    }
    assert forall|start: int, size: int|
        n - 1 <= size <= n + 1 && 1 <= size && #[trigger] matches_at(
            words,
            start,
            size,
            q,
            qs,
        ) implies window_at(page, q, start, size) by {
        lemma_overlap(words.subrange(start, start + size), qs);
    }
    if has_window(page, q) {
        let (start, size) = choose|start: int, size: int|
            n - 1 <= size <= n + 1 && 1 <= size && #[trigger] matches_at(
                words,
                start,
                size,
                q,
                qs,
            );
        assert(window_at(page, q, start, size));
    }
}

// ---------------------------------------------------------------------------
// Verdicts
// ---------------------------------------------------------------------------

/// Each quote has a verdict, by where it stands on the live page.
pub proof fn every_quote_is_judged(page: Seq<char>, quotes: Seq<Seq<char>>, i: int)
    requires
        0 <= i < quotes.len(),
    ensures
        verified(page, quotes).len() == quotes.len(),
        verified(page, quotes)[i].quote == quotes[i],
        verified(page, quotes)[i].status == StatusModel::Present <==> standing(page, quotes[i])
            == Standing::Present,
        verified(page, quotes)[i].status == StatusModel::Moved <==> standing(page, quotes[i])
            == Standing::Moved,
        verified(page, quotes)[i].status == StatusModel::Missing <==> standing(page, quotes[i])
            == Standing::Missing,
{
}

/// A snapshot covers the quotes that are missing and stand on it, as they are
/// or moved; any other verdict stays.
pub proof fn a_snapshot_covers_what_it_carries(
    verdicts: Seq<VerdictModel>,
    page: Seq<char>,
    pin: Seq<char>,
    i: int,
)
    requires
        0 <= i < verdicts.len(),
    ensures
        covered(verdicts, page, pin).len() == verdicts.len(),
        covered(verdicts, page, pin)[i].quote == verdicts[i].quote,
        verdicts[i].status == StatusModel::Missing && standing(page, verdicts[i].quote)
            != Standing::Missing ==> covered(verdicts, page, pin)[i].status
            == StatusModel::Archived(pin),
        verdicts[i].status != StatusModel::Missing || standing(page, verdicts[i].quote)
            == Standing::Missing ==> covered(verdicts, page, pin)[i] == verdicts[i],
{
}

/// A quote with a status is among verdicts.
pub open spec fn has_verdict(
    verdicts: Seq<VerdictModel>,
    quote: Seq<char>,
    status: StatusModel,
) -> bool {
    exists|i: int|
        0 <= i < verdicts.len() && #[trigger] verdicts[i] == (VerdictModel { quote, status })
}

/// The lost quotes are just those whose verdict is that they are missing, and
/// the drifted ones those that have moved.
pub proof fn lost_and_drifted_quotes(verdicts: Seq<VerdictModel>, q: Seq<char>)
    ensures
        lost(verdicts).contains(q) <==> has_verdict(verdicts, q, StatusModel::Missing),
        drifted(verdicts).contains(q) <==> has_verdict(verdicts, q, StatusModel::Moved),
    decreases verdicts.len(),
{
    if verdicts.len() > 0 {
        let front = verdicts.drop_last();
        let last = verdicts.last();
        lost_and_drifted_quotes(front, q);
        lemma_has_verdict(verdicts, q, StatusModel::Missing);
        lemma_has_verdict(verdicts, q, StatusModel::Moved);
        if last.status == StatusModel::Missing {
            lemma_contains_last(lost(verdicts), q);
            assert(lost(verdicts).drop_last() =~= lost(front));
        }
        if last.status == StatusModel::Moved {
            lemma_contains_last(drifted(verdicts), q);
            assert(drifted(verdicts).drop_last() =~= drifted(front));
        }
    }
}

proof fn lemma_has_verdict(verdicts: Seq<VerdictModel>, q: Seq<char>, status: StatusModel)
    requires
        verdicts.len() > 0,
    ensures
        has_verdict(verdicts, q, status) <==> has_verdict(verdicts.drop_last(), q, status)
            || verdicts.last() == (VerdictModel { quote: q, status }),
{
    let front = verdicts.drop_last();
    let v = VerdictModel { quote: q, status };
    if has_verdict(front, q, status) {
        let i = choose|i: int| 0 <= i < front.len() && #[trigger] front[i] == v;
        assert(verdicts[i] == v);
    }
    if verdicts.last() == v {
        assert(verdicts[verdicts.len() - 1] == v);
    }
    if has_verdict(verdicts, q, status) {
        let i = choose|i: int| 0 <= i < verdicts.len() && #[trigger] verdicts[i] == v;
        if i < front.len() {
            assert(front[i] == v);
        }
    }
}

/// Some verdict has a status that satisfies a test.
pub open spec fn some_verdict(
    verdicts: Seq<VerdictModel>,
    test: spec_fn(StatusModel) -> bool,
) -> bool {
    exists|i: int| 0 <= i < verdicts.len() && test((#[trigger] verdicts[i]).status)
}

/// The word recorded for the quotes of a term: `missing` where some quote is;
/// else `moved` where some has; else `archived` where some is only in a
/// snapshot; else `present`; and `unchecked` where there are none.
pub proof fn the_word_is_that_of_the_worst_quote(verdicts: Seq<VerdictModel>)
    ensures
        ({
            let missing = some_verdict(verdicts, |s: StatusModel| s is Missing);
            let moved = some_verdict(verdicts, |s: StatusModel| s is Moved);
            let kept = some_verdict(verdicts, |s: StatusModel| s is Archived || s is Pinned);
            &&& missing ==> word_of(verdicts) == "missing"@
            &&& !missing && moved ==> word_of(verdicts) == "moved"@
            &&& !missing && !moved && kept ==> word_of(verdicts) == "archived"@
            &&& !missing && !moved && !kept && verdicts.len() > 0 ==> word_of(verdicts)
                == "present"@
            &&& verdicts.len() == 0 ==> word_of(verdicts) == "unchecked"@
        }),
{
    let missing = |s: StatusModel| s is Missing;
    let moved = |s: StatusModel| s is Moved;
    let kept = |s: StatusModel| s is Archived || s is Pinned;
    the_word_tells_of_the_worst_quote(verdicts);
    if verdicts.len() > 0 {
        let w = choose|i: int|
            0 <= i < verdicts.len() && rank((#[trigger] verdicts[i]).status) == worst_rank(
                verdicts,
            );
        let s = verdicts[w].status;
        if some_verdict(verdicts, missing) {
            let i = choose|i: int| 0 <= i < verdicts.len() && missing((#[trigger] verdicts[i]).status);
            assert(rank(verdicts[i].status) <= worst_rank(verdicts));
        } else {
            assert(!missing(s));
        }
        if some_verdict(verdicts, moved) {
            let i = choose|i: int| 0 <= i < verdicts.len() && moved((#[trigger] verdicts[i]).status);
            assert(rank(verdicts[i].status) <= worst_rank(verdicts));
        } else {
            assert(!moved(s));
        }
        if some_verdict(verdicts, kept) {
            let i = choose|i: int| 0 <= i < verdicts.len() && kept((#[trigger] verdicts[i]).status);
            assert(rank(verdicts[i].status) <= worst_rank(verdicts));
        } else {
            assert(!kept(s));
        }
    }
}

/// A source of a list has the URL and quotes the passage.
pub open spec fn quoted_by(refs: Seq<SourceModel>, url: Seq<char>, q: Seq<char>) -> bool {
    exists|j: int|
        0 <= j < refs.len() && (#[trigger] refs[j]).url == url && refs[j].quotes.contains(q)
}

proof fn lemma_two_parts(a: Seq<Seq<char>>, b: Seq<Seq<char>>, x: Seq<char>)
    ensures
        (a + b).contains(x) <==> a.contains(x) || b.contains(x),
{
    let s = a + b;
    if a.contains(x) {
        let i = choose|i: int| 0 <= i < a.len() && a[i] == x;
        assert(s[i] == x);
    }
    if b.contains(x) {
        let i = choose|i: int| 0 <= i < b.len() && b[i] == x;
        assert(s[a.len() + i] == x);
    }
    if s.contains(x) {
        let i = choose|i: int| 0 <= i < s.len() && s[i] == x;
        if i < a.len() {
            assert(a[i] == x);
        } else {
            assert(b[i - a.len()] == x);
        }
    }
}

proof fn lemma_quotes_in(refs: Seq<SourceModel>, url: Seq<char>, q: Seq<char>)
    ensures
        quotes_in(refs, url).contains(q) <==> quoted_by(refs, url, q),
    decreases refs.len(),
{
    if refs.len() > 0 {
        let front = refs.drop_last();
        let last = refs.last();
        lemma_quotes_in(front, url, q);
        if last.url == url {
            lemma_two_parts(quotes_in(front, url), last.quotes, q);
        }
        if quoted_by(front, url, q) {
            let j = choose|j: int|
                0 <= j < front.len() && (#[trigger] front[j]).url == url && front[j].quotes.contains(
                    q,
                );
            assert(refs[j] == front[j]);
        }
        if last.url == url && last.quotes.contains(q) {
            assert(refs[refs.len() - 1] == last);
        }
        if quoted_by(refs, url, q) {
            let j = choose|j: int|
                0 <= j < refs.len() && (#[trigger] refs[j]).url == url && refs[j].quotes.contains(
                    q,
                );
            if j < front.len() {
                assert(front[j] == refs[j]);
            }
        }
    }
}

/// The passages that a term quotes from a page are just those that stand
/// under a source of the term with the page's URL.
pub proof fn a_term_quotes_what_stands_under_its_sources(
    all: Seq<TermModel>,
    term: Seq<char>,
    url: Seq<char>,
    q: Seq<char>,
)
    ensures
        quotes_of(all, term, url).contains(q) <==> exists|i: int|
            0 <= i < all.len() && (#[trigger] all[i]).term == term && quoted_by(
                all[i].sources,
                url,
                q,
            ),
    decreases all.len(),
{
    if all.len() > 0 {
        let front = all.drop_last();
        let last = all.last();
        a_term_quotes_what_stands_under_its_sources(front, term, url, q);
        lemma_quotes_in(last.sources, url, q);
        if last.term == term {
            lemma_two_parts(quotes_of(front, term, url), quotes_in(last.sources, url), q);
        }
        if exists|i: int|
            0 <= i < front.len() && (#[trigger] front[i]).term == term && quoted_by(
                front[i].sources,
                url,
                q,
            ) {
            let i = choose|i: int|
                0 <= i < front.len() && (#[trigger] front[i]).term == term && quoted_by(
                    front[i].sources,
                    url,
                    q,
                );
            assert(all[i] == front[i]);
        }
        if last.term == term && quoted_by(last.sources, url, q) {
            assert(all[all.len() - 1] == last);
        }
        if exists|i: int|
            0 <= i < all.len() && (#[trigger] all[i]).term == term && quoted_by(
                all[i].sources,
                url,
                q,
            ) {
            let i = choose|i: int|
                0 <= i < all.len() && (#[trigger] all[i]).term == term && quoted_by(
                    all[i].sources,
                    url,
                    q,
                );
            if i < front.len() {
                assert(front[i] == all[i]);
            }
        }
    }
}

}
