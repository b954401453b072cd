//! What holds of the source pass as a whole.

use vstd::prelude::*;

use crate::commands::source_check::fixes::{
    absent_pins, file_index, href, leading_pin, line_changes, line_length, pin_anchor, pin_anchors,
    pin_fix_step, pin_fixes, pin_label, pin_place, pinned_line, pinned_text, pins_length,
    text_changes, FixModel,
};
use crate::commands::source_check::pass::{
    applied, entry_step, fresh_tally, live_at, live_terms, looked_up, run_from, unreachable_terms,
    PassModel,
};
use crate::commands::source_check::quotes::{normal, standing, Standing};
use crate::commands::source_check::search::{
    at_most, best_cover, best_covers, exact_from, gain, page_at, pin_url, pin_urls, pins_found,
    search, stamps_at, uncovered, window_end, SearchModel,
};
use crate::commands::source_check::snapshots::{raw_url, PIN_CANDIDATES, PIN_FETCH_BUDGET};
use crate::commands::source_check::term::{
    cover_known, drift_all, live_term, needed, needs_pin, offer_from, pinned_verdicts,
    report_needed, searched, unread, TallyModel, WriteModel,
};
use crate::commands::source_check::urls::host;
use crate::commands::source_check::verdicts::{
    drifted, known_pins, lost, own_pins, quotes_of, verified, word_of, worst_rank, StatusModel,
    VerdictModel,
};
use crate::commands::source_check::web::{answered, LiveModel, RequestModel, WebModel};
use crate::commands::sources::{EntryModel, TermModel};
use crate::markdown::FileModel;
use crate::order::lemma_contains_last;
use crate::pattern::{regex_matches, LEADING_ANCHOR};
use crate::text::{
    ends, first_of, has, lemma_first_of, lemma_has_more, lemma_has_part, lemma_until, until,
};

verus! {

// ---------------------------------------------------------------------------
// Requests
// ---------------------------------------------------------------------------

/// What is needed has not been answered yet.
pub open spec fn unanswered<T>(web: WebModel, r: Result<T, RequestModel>) -> bool {
    r matches Err(request) ==> !answered(web, request)
}

proof fn lemma_exact_unanswered(
    web: WebModel,
    pins: Seq<Seq<char>>,
    quote: Seq<char>,
    k: nat,
)
    ensures
        unanswered(web, exact_from(web, pins, quote, k)),
    decreases pins.len() - k,
{
    if k < pins.len() {
        lemma_exact_unanswered(web, pins, quote, k + 1);
    }
}

proof fn lemma_search_unanswered(
    web: WebModel,
    archive_web: Seq<char>,
    stamps: Seq<Seq<char>>,
    url: Seq<char>,
    missing: Seq<Seq<char>>,
    n: nat,
)
    ensures
        unanswered(web, search(web, archive_web, stamps, url, missing, n)),
    decreases n,
{
    if n > 0 {
        lemma_search_unanswered(web, archive_web, stamps, url, missing, (n - 1) as nat);
    }
}

proof fn lemma_known_unanswered(
    web: WebModel,
    verdicts: Seq<VerdictModel>,
    known: Seq<Seq<char>>,
    n: nat,
)
    ensures
        unanswered(web, cover_known(web, verdicts, known, n)),
    decreases n,
{
    if n > 0 {
        lemma_known_unanswered(web, verdicts, known, (n - 1) as nat);
    }
}

proof fn lemma_drift_unanswered(
    web: WebModel,
    archive_web: Seq<char>,
    url: Seq<char>,
    own: Seq<Seq<char>>,
    archives: Seq<Seq<char>>,
    quotes: Seq<Seq<char>>,
    n: nat,
)
    ensures
        unanswered(web, drift_all(web, archive_web, url, own, archives, quotes, n)),
    decreases n,
{
    if n > 0 {
        lemma_drift_unanswered(web, archive_web, url, own, archives, quotes, (n - 1) as nat);
        lemma_exact_unanswered(web, own, quotes[n - 1], 0);
        if stamps_at(web, url) is Ok {
            let stamps = at_most(stamps_at(web, url)->Ok_0, PIN_CANDIDATES as nat);
            lemma_exact_unanswered(web, pin_urls(archive_web, stamps, url), quotes[n - 1], 0);
        }
    }
}

proof fn lemma_live_unanswered(
    all: Seq<TermModel>,
    web: WebModel,
    archive_web: Seq<char>,
    url: Seq<char>,
    page: Seq<char>,
    t: TallyModel,
    term: Seq<char>,
)
    ensures
        unanswered(web, live_term(all, web, archive_web, url, page, t, term)),
{
    let own = own_pins(all, term, url);
    let known = known_pins(own, t.archives);
    let first = verified(page, quotes_of(all, term, url));
    lemma_known_unanswered(web, first, known, known.len());
    let covered_first = cover_known(web, first, known, known.len());
    if covered_first is Ok {
        let v = covered_first->Ok_0;
        if stamps_at(web, url) is Ok {
            let stamps = at_most(stamps_at(web, url)->Ok_0, PIN_FETCH_BUDGET as nat);
            lemma_search_unanswered(web, archive_web, stamps, url, lost(v), stamps.len());
        }
        let s = searched(web, archive_web, url, v, t.archives);
        if s is Ok {
            let (verdicts, archives) = s->Ok_0;
            let quotes = drifted(verdicts);
            let told = report_needed(
                TallyModel { archives, quotes: t.quotes.insert(term, word_of(verdicts)), ..t },
                term,
                url,
                own,
                verdicts,
            );
            lemma_drift_unanswered(
                web,
                archive_web,
                url,
                own,
                told.archives,
                quotes,
                quotes.len(),
            );
        }
    }
}

proof fn lemma_offer_unanswered(
    web: WebModel,
    archives: Seq<Seq<char>>,
    own: Seq<Seq<char>>,
    k: nat,
)
    ensures
        unanswered(web, offer_from(web, archives, own, k)),
    decreases archives.len() - k,
{
    if k < archives.len() {
        lemma_offer_unanswered(web, archives, own, k + 1);
    }
}

proof fn lemma_live_terms_unanswered(
    all: Seq<TermModel>,
    web: WebModel,
    archive_web: Seq<char>,
    url: Seq<char>,
    page: Seq<char>,
    t: TallyModel,
    terms: Seq<Seq<char>>,
    n: nat,
)
    ensures
        unanswered(web, live_terms(all, web, archive_web, url, page, t, terms, n)),
    decreases n,
{
    if n > 0 {
        lemma_live_terms_unanswered(all, web, archive_web, url, page, t, terms, (n - 1) as nat);
        let u = live_terms(all, web, archive_web, url, page, t, terms, (n - 1) as nat);
        if u is Ok {
            lemma_live_unanswered(all, web, archive_web, url, page, u->Ok_0, terms[n - 1]);
        }
    }
}

proof fn lemma_unreachable_terms_unanswered(
    all: Seq<TermModel>,
    web: WebModel,
    url: Seq<char>,
    site: Seq<char>,
    reason: Seq<char>,
    t: TallyModel,
    terms: Seq<Seq<char>>,
    n: nat,
)
    ensures
        unanswered(web, unreachable_terms(all, web, url, site, reason, t, terms, n)),
    decreases n,
{
    if n > 0 {
        lemma_unreachable_terms_unanswered(all, web, url, site, reason, t, terms, (n - 1) as nat);
        let u = unreachable_terms(all, web, url, site, reason, t, terms, (n - 1) as nat);
        if u is Ok {
            let own = own_pins(all, terms[n - 1], url);
            lemma_offer_unanswered(web, own, Seq::empty(), 0);
            lemma_offer_unanswered(web, u->Ok_0.archives, own, 0);
        }
    }
}

/// The check of a page never asks for what has been answered.
pub proof fn a_page_never_asks_twice(
    all: Seq<TermModel>,
    web: WebModel,
    archive_web: Seq<char>,
    now: Seq<char>,
    url: Seq<char>,
    entry: EntryModel,
    down: Map<Seq<char>, Seq<char>>,
)
    ensures
        unanswered(web, entry_step(all, web, archive_web, now, url, entry, down)),
{
    if host(url) is Some {
        let site = host(url)->Some_0;
        match live_at(web, url, site, down) {
            Err(_) => {},
            Ok(LiveModel::Unreachable(reason)) => {
                if looked_up(web, url, entry.archives) is Ok {
                    lemma_unreachable_terms_unanswered(
                        all,
                        web,
                        url,
                        site,
                        reason,
                        fresh_tally(entry, looked_up(web, url, entry.archives)->Ok_0),
                        entry.cited_by,
                        entry.cited_by.len(),
                    );
                }
            },
            Ok(LiveModel::Dead(_)) => {},
            Ok(LiveModel::Page { status, digest, page }) => {
                lemma_live_terms_unanswered(
                    all,
                    web,
                    archive_web,
                    url,
                    page,
                    fresh_tally(entry, entry.archives),
                    entry.cited_by,
                    entry.cited_by.len(),
                );
            },
        }
    }
}

/// A pass never asks for what has been answered: everything is fetched once.
pub proof fn a_pass_never_asks_twice(
    all: Seq<TermModel>,
    web: WebModel,
    archive_web: Seq<char>,
    now: Seq<char>,
    p: PassModel,
)
    ensures
        run_from(all, web, archive_web, now, p).1 matches Some(request) ==> !answered(web, request),
    decreases p.keys.len() - p.next,
{
    if p.next < p.keys.len() {
        let url = p.keys[p.next as int];
        a_page_never_asks_twice(all, web, archive_web, now, url, p.lock[url], p.down);
        let step = entry_step(all, web, archive_web, now, url, p.lock[url], p.down);
        if step is Ok {
            a_pass_never_asks_twice(all, web, archive_web, now, applied(p, step->Ok_0));
        }
    }
}

/// A host that is known to be unreachable is not asked again: the check of
/// another of its pages never asks for that page.
pub proof fn a_failed_host_is_not_asked_again(
    all: Seq<TermModel>,
    web: WebModel,
    archive_web: Seq<char>,
    now: Seq<char>,
    url: Seq<char>,
    entry: EntryModel,
    down: Map<Seq<char>, Seq<char>>,
)
    requires
        host(url) is Some,
        down.dom().contains(host(url)->Some_0),
    ensures
        entry_step(all, web, archive_web, now, url, entry, down) matches Err(request)
            ==> !(request is Page),
{
    let site = host(url)->Some_0;
    let reason = down[site];
    if looked_up(web, url, entry.archives) is Ok {
        lemma_unreachable_asks(
            all,
            web,
            url,
            site,
            reason,
            fresh_tally(entry, looked_up(web, url, entry.archives)->Ok_0),
            entry.cited_by,
            entry.cited_by.len(),
        );
    }
}

proof fn lemma_offer_asks(web: WebModel, archives: Seq<Seq<char>>, own: Seq<Seq<char>>, k: nat)
    ensures
        offer_from(web, archives, own, k) matches Err(request) ==> request is Snapshot,
    decreases archives.len() - k,
{
    if k < archives.len() {
        lemma_offer_asks(web, archives, own, k + 1);
    }
}

proof fn lemma_unreachable_asks(
    all: Seq<TermModel>,
    web: WebModel,
    url: Seq<char>,
    site: Seq<char>,
    reason: Seq<char>,
    t: TallyModel,
    terms: Seq<Seq<char>>,
    n: nat,
)
    ensures
        unreachable_terms(all, web, url, site, reason, t, terms, n) matches Err(request)
            ==> request is Snapshot,
        unreachable_terms(all, web, url, site, reason, t, terms, n) matches Ok(u) ==> u.quotes
            == t.quotes && u.archives == t.archives,
    decreases n,
{
    if n > 0 {
        lemma_unreachable_asks(all, web, url, site, reason, t, terms, (n - 1) as nat);
        let u = unreachable_terms(all, web, url, site, reason, t, terms, (n - 1) as nat);
        if u is Ok {
            let own = own_pins(all, terms[n - 1], url);
            lemma_offer_asks(web, own, Seq::empty(), 0);
            lemma_offer_asks(web, u->Ok_0.archives, own, 0);
        }
    }
}

// ---------------------------------------------------------------------------
// Pages that do not answer
// ---------------------------------------------------------------------------

/// A page whose host cannot be reached keeps what the lock says of it; at
/// most a first pin is added.
pub proof fn an_unreachable_page_keeps_its_entry(
    all: Seq<TermModel>,
    web: WebModel,
    archive_web: Seq<char>,
    now: Seq<char>,
    url: Seq<char>,
    entry: EntryModel,
    down: Map<Seq<char>, Seq<char>>,
)
    requires
        host(url) is Some,
        live_at(web, url, host(url)->Some_0, down) matches Ok(LiveModel::Unreachable(_)),
    ensures
        entry_step(all, web, archive_web, now, url, entry, down) matches Ok(o) ==> {
            &&& o.entry.cited_by == entry.cited_by
            &&& o.entry.fetched_at == entry.fetched_at
            &&& o.entry.status == entry.status
            &&& o.entry.content_sha256 == entry.content_sha256
            &&& o.entry.quotes == entry.quotes
            &&& entry.archives.len() > 0 ==> o.entry.archives == entry.archives
            &&& o.entry.archives.len() <= 1 || o.entry.archives == entry.archives
        },
{
    let site = host(url)->Some_0;
    let reason = live_at(web, url, site, down)->Ok_0->Unreachable_0;
    if looked_up(web, url, entry.archives) is Ok {
        lemma_unreachable_asks(
            all,
            web,
            url,
            site,
            reason,
            fresh_tally(entry, looked_up(web, url, entry.archives)->Ok_0),
            entry.cited_by,
            entry.cited_by.len(),
        );
    }
}

/// A dead link is an error for each term that cites it, and leaves the status
/// of the quotes as it was.
pub proof fn a_dead_link_is_an_error_for_each_citing_term(
    all: Seq<TermModel>,
    web: WebModel,
    archive_web: Seq<char>,
    now: Seq<char>,
    url: Seq<char>,
    entry: EntryModel,
    down: Map<Seq<char>, Seq<char>>,
    i: int,
)
    requires
        host(url) is Some,
        live_at(web, url, host(url)->Some_0, down) matches Ok(LiveModel::Dead(_)),
        0 <= i < entry.cited_by.len(),
    ensures
        entry_step(all, web, archive_web, now, url, entry, down) matches Ok(o) ==> {
            &&& o.findings.len() == entry.cited_by.len()
            &&& o.findings[i].check == "dead_link"@
            &&& o.findings[i].severity == "error"@
            &&& o.findings[i].term == entry.cited_by[i]
            &&& o.entry.quotes == entry.quotes
            &&& o.writes.len() == 0
        },
{
}

// ---------------------------------------------------------------------------
// Pins that carry what the page has lost
// ---------------------------------------------------------------------------

/// A quote that its own line answers for: on the live page word for word, or
/// not at all there but in a pin of the line that can be read.
pub open spec fn answered_for(
    web: WebModel,
    page: Seq<char>,
    own: Seq<Seq<char>>,
    quote: Seq<char>,
) -> bool {
    ||| standing(page, quote) == Standing::Present
    ||| standing(page, quote) == Standing::Missing && exists|k: int|
        0 <= k < own.len() && carries(web, #[trigger] own[k], quote)
}

/// A pin can be read and carries the quote.
pub open spec fn carries(web: WebModel, pin: Seq<char>, quote: Seq<char>) -> bool {
    page_at(web, pin) matches Ok(Some(text)) && standing(text, quote) != Standing::Missing
}

proof fn lemma_lost_none(verdicts: Seq<VerdictModel>)
    ensures
        lost(verdicts).len() == 0 <==> forall|i: int|
            0 <= i < verdicts.len() ==> (#[trigger] verdicts[i]).status != StatusModel::Missing,
    decreases verdicts.len(),
{
    if verdicts.len() > 0 {
        let front = verdicts.drop_last();
        lemma_lost_none(front);
        if lost(verdicts).len() == 0 {
            assert forall|i: int| 0 <= i < verdicts.len() implies (#[trigger] verdicts[i]).status
                != StatusModel::Missing by {
                if i < front.len() {
                    assert(front[i] == verdicts[i]);
                }
            }
        }
        if forall|i: int|
            0 <= i < verdicts.len() ==> (#[trigger] verdicts[i]).status != StatusModel::Missing {
            assert forall|i: int| 0 <= i < front.len() implies (#[trigger] front[i]).status
                != StatusModel::Missing by {
                assert(front[i] == verdicts[i]);
            }
            assert(verdicts[verdicts.len() - 1].status != StatusModel::Missing);
        }
    }
}

proof fn lemma_drifted_none(verdicts: Seq<VerdictModel>)
    requires
        forall|i: int|
            0 <= i < verdicts.len() ==> (#[trigger] verdicts[i]).status != StatusModel::Moved,
    ensures
        drifted(verdicts).len() == 0,
    decreases verdicts.len(),
{
    if verdicts.len() > 0 {
        let front = verdicts.drop_last();
        assert forall|i: int| 0 <= i < front.len() implies (#[trigger] front[i]).status
            != StatusModel::Moved by {
            assert(front[i] == verdicts[i]);
        }
        lemma_drifted_none(front);
        assert(verdicts[verdicts.len() - 1].status != StatusModel::Moved);
    }
}

proof fn lemma_needed_none(verdicts: Seq<VerdictModel>, own: Seq<Seq<char>>)
    requires
        forall|i: int| 0 <= i < verdicts.len() ==> !needs_pin(#[trigger] verdicts[i], own),
    ensures
        needed(verdicts, own).len() == 0,
    decreases verdicts.len(),
{
    if verdicts.len() > 0 {
        let front = verdicts.drop_last();
        assert forall|i: int| 0 <= i < front.len() implies !needs_pin(#[trigger] front[i], own) by {
            assert(front[i] == verdicts[i]);
        }
        lemma_needed_none(front, own);
        assert(!needs_pin(verdicts[verdicts.len() - 1], own));
    }
}

/// The state of the verdicts while the pins of a line are read: each is
/// present, still missing, or archived in one of those pins; one still missing
/// is carried by none of those read.
spec fn settled_so_far(
    web: WebModel,
    own: Seq<Seq<char>>,
    n: nat,
    first: Seq<VerdictModel>,
    now: Seq<VerdictModel>,
) -> bool {
    &&& now.len() == first.len()
    &&& forall|i: int|
        0 <= i < now.len() ==> {
            let v = #[trigger] now[i];
            &&& v.quote == first[i].quote
            &&& v.status == StatusModel::Present || v.status == StatusModel::Missing || (v.status
                matches StatusModel::Archived(pin) && own.contains(pin))
            &&& v.status == StatusModel::Missing ==> forall|k: int|
                0 <= k < n && k < own.len() ==> !carries(web, #[trigger] own[k], v.quote)
        }
}

proof fn lemma_own_pins_read(
    web: WebModel,
    first: Seq<VerdictModel>,
    own: Seq<Seq<char>>,
    known: Seq<Seq<char>>,
    n: nat,
)
    requires
        n <= own.len() <= known.len(),
        forall|k: int| 0 <= k < own.len() ==> #[trigger] known[k] == own[k],
        forall|k: int| 0 <= k < own.len() ==> page_at(web, #[trigger] own[k]) is Ok,
        forall|i: int|
            0 <= i < first.len() ==> (#[trigger] first[i]).status == StatusModel::Present
                || first[i].status == StatusModel::Missing,
    ensures
        cover_known(web, first, known, n) matches Ok(v) && (lost(v).len() == 0
            || settled_so_far(web, own, n, first, v)) && settled_so_far(web, own, 0, first, v),
    decreases n,
{
    lemma_lost_none(first);
    if n > 0 {
        lemma_own_pins_read(web, first, own, known, (n - 1) as nat);
        let u = cover_known(web, first, known, (n - 1) as nat)->Ok_0;
        let pin = own[n - 1];
        assert(known[n - 1] == pin);
        assert(page_at(web, pin) is Ok);
        if lost(u).len() > 0 {
            let v = cover_known(web, first, known, n)->Ok_0;
            assert forall|i: int| 0 <= i < v.len() implies {
                let x = #[trigger] v[i];
                &&& x.quote == first[i].quote
                &&& x.status == StatusModel::Present || x.status == StatusModel::Missing || (
                x.status matches StatusModel::Archived(p) && own.contains(p))
                &&& x.status == StatusModel::Missing ==> forall|k: int|
                    0 <= k < n && k < own.len() ==> !carries(web, #[trigger] own[k], x.quote)
            } by {
                assert(u[i].quote == first[i].quote);
                assert(own.contains(pin));
                if v[i].status == StatusModel::Missing {
                    assert(u[i].status == StatusModel::Missing);
                    assert forall|k: int| 0 <= k < n && k < own.len() implies !carries(
                        web,
                        #[trigger] own[k],
                        v[i].quote,
                    ) by {
                        if k < n - 1 {
                            assert(!carries(web, own[k], u[i].quote));
                        }
                    }
                }
            }
        }
    }
}

proof fn lemma_cover_stops(
    web: WebModel,
    first: Seq<VerdictModel>,
    known: Seq<Seq<char>>,
    n: nat,
    m: nat,
)
    requires
        n <= m,
        cover_known(web, first, known, n) matches Ok(v) && lost(v).len() == 0,
    ensures
        cover_known(web, first, known, m) == cover_known(web, first, known, n),
    decreases m,
{
    if n < m {
        lemma_cover_stops(web, first, known, n, (m - 1) as nat);
    }
}

/// A passage that the live page has lost but a pin beside the link carries is
/// not reported: where the page or the line's own pins answer for every quote
/// of a term, nothing is reported for it, nothing is written and no pin is
/// added, and the status of its quotes is not `missing` or `moved`.
pub proof fn what_its_own_pins_carry_is_not_reported(
    all: Seq<TermModel>,
    web: WebModel,
    archive_web: Seq<char>,
    url: Seq<char>,
    page: Seq<char>,
    t: TallyModel,
    term: Seq<char>,
)
    requires
        forall|k: int|
            0 <= k < own_pins(all, term, url).len() ==> page_at(
                web,
                #[trigger] own_pins(all, term, url)[k],
            ) is Ok,
        forall|i: int|
            0 <= i < quotes_of(all, term, url).len() ==> answered_for(
                web,
                page,
                own_pins(all, term, url),
                #[trigger] quotes_of(all, term, url)[i],
            ),
    ensures
        live_term(all, web, archive_web, url, page, t, term) matches Ok(u) && {
            &&& u.findings == t.findings
            &&& u.writes == t.writes
            &&& u.archives == t.archives
            &&& u.quotes.dom() == t.quotes.dom().insert(term)
            &&& u.quotes[term] != "missing"@ && u.quotes[term] != "moved"@
        },
{
    let own = own_pins(all, term, url);
    let quotes = quotes_of(all, term, url);
    let known = known_pins(own, t.archives);
    let first = verified(page, quotes);
    assert forall|i: int| 0 <= i < first.len() implies (#[trigger] first[i]).status
        == StatusModel::Present || first[i].status == StatusModel::Missing by {
        assert(answered_for(web, page, own, quotes[i]));
    }
    lemma_own_pins_read(web, first, own, known, own.len());
    let v = cover_known(web, first, known, own.len())->Ok_0;
    lemma_lost_none(v);
    assert(lost(v).len() == 0) by {
        if lost(v).len() > 0 {
            assert(settled_so_far(web, own, own.len(), first, v));
            let i = choose|i: int|
                0 <= i < v.len() && (#[trigger] v[i]).status == StatusModel::Missing;
            assert(v[i].quote == first[i].quote && first[i].quote == quotes[i]);
            assert(answered_for(web, page, own, quotes[i]));
            if standing(page, quotes[i]) == Standing::Present {
                lemma_present_stays(web, first, known, own.len(), i);
            } else {
                let k = choose|k: int| 0 <= k < own.len() && carries(web, #[trigger] own[k], quotes[i]);
                assert(!carries(web, own[k], v[i].quote));
            }
        }
    }
    lemma_cover_stops(web, first, known, own.len(), known.len());
    assert forall|i: int| 0 <= i < v.len() implies !needs_pin(#[trigger] v[i], own) && v[i].status
        != StatusModel::Moved by {
        assert(v[i].quote == first[i].quote);
    }
    lemma_needed_none(v, own);
    lemma_drifted_none(v);
    assert(pinned_verdicts(v, Seq::empty()) =~= v);
    let word = word_of(v);
    assert(t.quotes.insert(term, word).insert(term, word) =~= t.quotes.insert(term, word));
    lemma_rank_bound(v);
    lemma_words_differ();
}

/// Only a passage that has left the page is an error: where the live page
/// still carries every quote of a term, what is reported for it are warnings
/// of passages that have changed.
pub proof fn only_a_passage_that_left_the_page_is_an_error(
    all: Seq<TermModel>,
    web: WebModel,
    archive_web: Seq<char>,
    url: Seq<char>,
    page: Seq<char>,
    t: TallyModel,
    term: Seq<char>,
)
    requires
        live_term(all, web, archive_web, url, page, t, term) is Ok,
        forall|i: int|
            0 <= i < quotes_of(all, term, url).len() ==> standing(
                page,
                #[trigger] quotes_of(all, term, url)[i],
            ) != Standing::Missing,
    ensures
        ({
            let found = live_term(all, web, archive_web, url, page, t, term)->Ok_0.findings;
            let n = t.findings.len() as int;
            &&& n <= found.len()
            &&& found.take(n) == t.findings
            &&& forall|i: int|
                n <= i < found.len() ==> (#[trigger] found[i]).severity == "warning"@
                    && found[i].check == "quote_moved"@
        }),
{
    let own = own_pins(all, term, url);
    let quotes = quotes_of(all, term, url);
    let known = known_pins(own, t.archives);
    let first = verified(page, quotes);
    assert forall|i: int| 0 <= i < first.len() implies (#[trigger] first[i]).status
        != StatusModel::Missing by {
        assert(standing(page, quotes[i]) != Standing::Missing);
    }
    lemma_lost_none(first);
    lemma_cover_stops(web, first, known, 0, known.len());
    lemma_needed_none(first, own);
    let found = live_term(all, web, archive_web, url, page, t, term)->Ok_0.findings;
    assert(found.take(t.findings.len() as int) =~= t.findings);
}

proof fn lemma_present_stays(
    web: WebModel,
    first: Seq<VerdictModel>,
    known: Seq<Seq<char>>,
    n: nat,
    i: int,
)
    requires
        0 <= i < first.len(),
        first[i].status == StatusModel::Present,
        cover_known(web, first, known, n) is Ok,
    ensures
        cover_known(web, first, known, n)->Ok_0.len() == first.len(),
        cover_known(web, first, known, n)->Ok_0[i].status == StatusModel::Present,
    decreases n,
{
    if n > 0 {
        lemma_present_stays(web, first, known, (n - 1) as nat, i);
    }
}

proof fn lemma_rank_bound(verdicts: Seq<VerdictModel>)
    requires
        forall|i: int|
            0 <= i < verdicts.len() ==> (#[trigger] verdicts[i]).status != StatusModel::Moved
                && verdicts[i].status != StatusModel::Missing,
    ensures
        0 <= worst_rank(verdicts) <= 2,
    decreases verdicts.len(),
{
    if verdicts.len() > 0 {
        let front = verdicts.drop_last();
        assert forall|i: int| 0 <= i < front.len() implies (#[trigger] front[i]).status
            != StatusModel::Moved && front[i].status != StatusModel::Missing by {
            assert(front[i] == verdicts[i]);
        }
        lemma_rank_bound(front);
        assert(verdicts[verdicts.len() - 1].status != StatusModel::Moved);
    }
}

proof fn lemma_words_differ()
    ensures
        "missing"@ != "archived"@,
        "missing"@ != "present"@,
        "missing"@ != "unchecked"@,
        "moved"@ != "archived"@,
        "moved"@ != "present"@,
        "moved"@ != "unchecked"@,
{
    reveal_strlit("missing");
    reveal_strlit("moved");
    reveal_strlit("archived");
    reveal_strlit("present");
    reveal_strlit("unchecked");
    assert("missing"@.len() == 7 && "moved"@.len() == 5 && "archived"@.len() == 8);
    assert("present"@.len() == 7 && "unchecked"@.len() == 9);
    assert("missing"@[0] == 'm' && "present"@[0] == 'p');
}

// ---------------------------------------------------------------------------
// The search of the archive
// ---------------------------------------------------------------------------

/// The `k`-th pin carries a quote that no pin before it carries.
pub open spec fn adds_a_quote(
    pins: Seq<(Seq<char>, Seq<char>)>,
    quotes: Seq<Seq<char>>,
    k: int,
) -> bool {
    exists|q: Seq<char>| #[trigger]
        quotes.contains(q) && standing(pins[k].1, q) != Standing::Missing && none_before(pins, k, q)
}

/// No pin before the `k`-th carries the quote.
pub open spec fn none_before(pins: Seq<(Seq<char>, Seq<char>)>, k: int, q: Seq<char>) -> bool {
    forall|j: int| 0 <= j < k ==> standing((#[trigger] pins[j]).1, q) == Standing::Missing
}

spec fn in_progress(s: SearchModel, quotes: Seq<Seq<char>>) -> bool {
    &&& forall|q: Seq<char>| #[trigger]
        s.remaining.contains(q) ==> quotes.contains(q) && none_before(
            s.pins,
            s.pins.len() as int,
            q,
        )
    &&& forall|k: int| 0 <= k < s.pins.len() ==> #[trigger] adds_a_quote(s.pins, quotes, k)
}

proof fn lemma_uncovered(page: Seq<char>, quotes: Seq<Seq<char>>)
    ensures
        uncovered(page, quotes).len() <= quotes.len(),
        forall|q: Seq<char>| #[trigger]
            uncovered(page, quotes).contains(q) ==> quotes.contains(q) && standing(page, q)
                == Standing::Missing,
        uncovered(page, quotes).len() < quotes.len() ==> exists|q: Seq<char>| #[trigger]
            quotes.contains(q) && standing(page, q) != Standing::Missing,
    decreases quotes.len(),
{
    if quotes.len() > 0 {
        let front = quotes.drop_last();
        lemma_uncovered(page, front);
        let r = uncovered(page, quotes);
        assert forall|q: Seq<char>| #[trigger] r.contains(q) implies quotes.contains(q) && standing(
            page,
            q,
        ) == Standing::Missing by {
            lemma_contains_last(quotes, q);
            if standing(page, quotes.last()) == Standing::Missing {
                lemma_contains_last(r, q);
                assert(r.drop_last() =~= uncovered(page, front));
            }
            if uncovered(page, front).contains(q) {
                assert(front.contains(q));
            }
        }
        if r.len() < quotes.len() {
            if standing(page, quotes.last()) != Standing::Missing {
                assert(quotes[quotes.len() - 1] == quotes.last());
                assert(quotes.contains(quotes.last()));
            } else {
                let q = choose|q: Seq<char>| #[trigger]
                    front.contains(q) && standing(page, q) != Standing::Missing;
                lemma_contains_last(quotes, q);
            }
        }
    }
}

proof fn lemma_pin_added(s: SearchModel, quotes: Seq<Seq<char>>, pin: Seq<char>, page: Seq<char>)
    requires
        in_progress(s, quotes),
        uncovered(page, s.remaining).len() < s.remaining.len(),
    ensures
        forall|window: Seq<(Seq<char>, Seq<char>)>|
            in_progress(
                SearchModel {
                    remaining: uncovered(page, s.remaining),
                    pins: s.pins.push((pin, page)),
                    window,
                },
                quotes,
            ),
{
    lemma_uncovered(page, s.remaining);
    let n = s.pins.len() as int;
    let pins = s.pins.push((pin, page));
    let left = uncovered(page, s.remaining);
    assert forall|q: Seq<char>| #[trigger] left.contains(q) implies quotes.contains(q)
        && none_before(pins, pins.len() as int, q) by {
        assert(s.remaining.contains(q));
        assert(none_before(s.pins, n, q));
        assert forall|j: int| 0 <= j < pins.len() implies standing((#[trigger] pins[j]).1, q)
            == Standing::Missing by {
            if j < n {
                assert(pins[j] == s.pins[j]);
            }
        }
    }
    assert forall|k: int| 0 <= k < pins.len() implies #[trigger] adds_a_quote(pins, quotes, k) by {
        if k < n {
            assert(adds_a_quote(s.pins, quotes, k));
            let q = choose|q: Seq<char>| #[trigger]
                quotes.contains(q) && standing(s.pins[k].1, q) != Standing::Missing && none_before(
                    s.pins,
                    k,
                    q,
                );
            assert(none_before(pins, k, q)) by {
                assert forall|j: int| 0 <= j < k implies standing((#[trigger] pins[j]).1, q)
                    == Standing::Missing by {
                    assert(pins[j] == s.pins[j]);
                }
            }
            assert(pins[k] == s.pins[k]);
        } else {
            let q = choose|q: Seq<char>| #[trigger]
                s.remaining.contains(q) && standing(page, q) != Standing::Missing;
            assert(none_before(pins, n, q)) by {
                assert(none_before(s.pins, n, q));
                assert forall|j: int| 0 <= j < n implies standing((#[trigger] pins[j]).1, q)
                    == Standing::Missing by {
                    assert(pins[j] == s.pins[j]);
                }
            }
            assert(quotes.contains(q));
        }
    }
}

proof fn lemma_best_cover(window: Seq<(Seq<char>, Seq<char>)>, quotes: Seq<Seq<char>>)
    ensures
        best_cover(window, quotes) matches Some(i) ==> 0 <= i < window.len() && gain(
            window[i].1,
            quotes,
        ) > 0,
    decreases window.len(),
{
    if window.len() > 0 {
        lemma_best_cover(window.drop_last(), quotes);
    }
}

proof fn lemma_best_covers(s: SearchModel, quotes: Seq<Seq<char>>)
    requires
        in_progress(s, quotes),
    ensures
        in_progress(best_covers(s), quotes),
        best_covers(s).pins.len() + best_covers(s).window.len() == s.pins.len() + s.window.len(),
    decreases s.window.len(),
{
    lemma_best_cover(s.window, s.remaining);
    if best_cover(s.window, s.remaining) is Some {
        let i = best_cover(s.window, s.remaining)->Some_0;
        lemma_pin_added(s, quotes, s.window[i].0, s.window[i].1);
        assert(s.window[i] == (s.window[i].0, s.window[i].1));
        lemma_best_covers(
            SearchModel {
                remaining: uncovered(s.window[i].1, s.remaining),
                pins: s.pins.push(s.window[i]),
                window: s.window.remove(i),
            },
            quotes,
        );
    }
}

proof fn lemma_search_progress(
    web: WebModel,
    archive_web: Seq<char>,
    stamps: Seq<Seq<char>>,
    url: Seq<char>,
    quotes: Seq<Seq<char>>,
    n: nat,
)
    requires
        n <= stamps.len(),
    ensures
        search(web, archive_web, stamps, url, quotes, n) matches Ok(s) ==> in_progress(s, quotes)
            && s.pins.len() + s.window.len() <= n,
    decreases n,
{
    if n > 0 {
        lemma_search_progress(web, archive_web, stamps, url, quotes, (n - 1) as nat);
        let before = search(web, archive_web, stamps, url, quotes, (n - 1) as nat);
        if before is Ok && before->Ok_0.remaining.len() > 0 {
            let s = before->Ok_0;
            let pin = pin_url(archive_web, stamps[n - 1], url);
            if page_at(web, pin) is Ok {
                match page_at(web, pin)->Ok_0 {
                    None => {
                        lemma_best_covers(s, quotes);
                    },
                    Some(text) => {
                        lemma_uncovered(text, s.remaining);
                        let kept = SearchModel { window: s.window.push((pin, text)), ..s };
                        assert(in_progress(kept, quotes));
                        lemma_best_covers(kept, quotes);
                        if uncovered(text, s.remaining).len() < s.remaining.len() {
                            lemma_pin_added(s, quotes, pin, text);
                        }
                    },
                }
            }
        }
    }
}

/// Each snapshot that a search pins carries at least one of the lost quotes
/// that no snapshot pinned before it carries, and a search pins at most as
/// many as it may fetch.
pub proof fn each_pin_adds_a_quote(
    web: WebModel,
    archive_web: Seq<char>,
    url: Seq<char>,
    quotes: Seq<Seq<char>>,
    k: int,
)
    requires
        pins_found(web, archive_web, url, quotes) matches Ok(pins) && 0 <= k < pins.len(),
    ensures
        adds_a_quote(pins_found(web, archive_web, url, quotes)->Ok_0, quotes, k),
        pins_found(web, archive_web, url, quotes)->Ok_0.len() <= PIN_FETCH_BUDGET,
{
    let stamps = at_most(stamps_at(web, url)->Ok_0, PIN_FETCH_BUDGET as nat);
    lemma_search_progress(web, archive_web, stamps, url, quotes, stamps.len());
}

proof fn lemma_search_asks(
    web: WebModel,
    archive_web: Seq<char>,
    stamps: Seq<Seq<char>>,
    url: Seq<char>,
    quotes: Seq<Seq<char>>,
    n: nat,
) -> (i: int)
    requires
        n <= stamps.len(),
        search(web, archive_web, stamps, url, quotes, n) is Err,
    ensures
        0 <= i < n,
        search(web, archive_web, stamps, url, quotes, n)->Err_0 == RequestModel::Snapshot(
            raw_url(pin_url(archive_web, stamps[i], url)),
        ),
    decreases n,
{
    if search(web, archive_web, stamps, url, quotes, (n - 1) as nat) is Err {
        lemma_search_asks(web, archive_web, stamps, url, quotes, (n - 1) as nat)
    } else {
        n - 1
    }
}

/// A search asks for the index of the page's snapshots, and then for none but
/// the first of them, as many as it may fetch.
pub proof fn a_search_asks_within_its_budget(
    web: WebModel,
    archive_web: Seq<char>,
    url: Seq<char>,
    quotes: Seq<Seq<char>>,
)
    requires
        pins_found(web, archive_web, url, quotes) is Err,
    ensures
        match stamps_at(web, url) {
            Err(_) => pins_found(web, archive_web, url, quotes)->Err_0 == RequestModel::Index(url),
            Ok(all) => exists|i: int|
                0 <= i < all.len() && i < PIN_FETCH_BUDGET && pins_found(
                    web,
                    archive_web,
                    url,
                    quotes,
                )->Err_0 == RequestModel::Snapshot(
                    raw_url(pin_url(archive_web, #[trigger] all[i], url)),
                ),
        },
{
    if stamps_at(web, url) is Ok {
        let all = stamps_at(web, url)->Ok_0;
        let stamps = at_most(all, PIN_FETCH_BUDGET as nat);
        let i = lemma_search_asks(web, archive_web, stamps, url, quotes, stamps.len());
        assert(stamps[i] == all[i]);
    }
}

/// The page carries none of the quotes.
pub open spec fn carries_none(page: Seq<char>, quotes: Seq<Seq<char>>) -> bool {
    forall|q: Seq<char>| #[trigger] quotes.contains(q) ==> standing(page, q) == Standing::Missing
}

/// Some pin carries the quote.
pub open spec fn some_carries(pins: Seq<(Seq<char>, Seq<char>)>, q: Seq<char>) -> bool {
    !none_before(pins, pins.len() as int, q)
}

proof fn lemma_uncovered_keeps(page: Seq<char>, quotes: Seq<Seq<char>>, q: Seq<char>)
    requires
        quotes.contains(q),
    ensures
        standing(page, q) == Standing::Missing ==> uncovered(page, quotes).contains(q),
        standing(page, q) != Standing::Missing ==> uncovered(page, quotes).len() < quotes.len(),
    decreases quotes.len(),
{
    let front = quotes.drop_last();
    let r = uncovered(page, quotes);
    lemma_contains_last(quotes, q);
    lemma_uncovered(page, front);
    if front.contains(q) {
        lemma_uncovered_keeps(page, front, q);
    }
    if standing(page, quotes.last()) == Standing::Missing {
        assert(r.drop_last() =~= uncovered(page, front));
        if standing(page, q) == Standing::Missing {
            lemma_contains_last(r, q);
        }
    }
}

proof fn lemma_pin_carries(
    pins: Seq<(Seq<char>, Seq<char>)>,
    pin: (Seq<char>, Seq<char>),
    q: Seq<char>,
)
    ensures
        some_carries(pins, q) ==> some_carries(pins.push(pin), q),
        standing(pin.1, q) != Standing::Missing ==> some_carries(pins.push(pin), q),
{
    let more = pins.push(pin);
    if some_carries(pins, q) {
        let j = choose|j: int|
            0 <= j < pins.len() && standing((#[trigger] pins[j]).1, q) != Standing::Missing;
        assert(standing(more[j].1, q) != Standing::Missing);
    }
    assert(more[pins.len() as int] == pin);
}

/// What one more pin leaves lost was lost before, and what it takes away it
/// carries.
proof fn lemma_pin_takes(
    quotes: Seq<Seq<char>>,
    pins: Seq<(Seq<char>, Seq<char>)>,
    pin: (Seq<char>, Seq<char>),
)
    ensures
        forall|q: Seq<char>| #[trigger]
            uncovered(pin.1, quotes).contains(q) ==> quotes.contains(q),
        forall|q: Seq<char>| #[trigger]
            quotes.contains(q) ==> uncovered(pin.1, quotes).contains(q) || some_carries(
                pins.push(pin),
                q,
            ),
        carries_none(pin.1, uncovered(pin.1, quotes)),
{
    lemma_uncovered(pin.1, quotes);
    assert forall|q: Seq<char>| #[trigger] quotes.contains(q) implies uncovered(
        pin.1,
        quotes,
    ).contains(q) || some_carries(pins.push(pin), q) by {
        lemma_uncovered_keeps(pin.1, quotes, q);
        lemma_pin_carries(pins, pin, q);
    }
}

proof fn lemma_no_best(window: Seq<(Seq<char>, Seq<char>)>, quotes: Seq<Seq<char>>, k: int)
    requires
        best_cover(window, quotes) is None,
        0 <= k < window.len(),
    ensures
        carries_none(window[k].1, quotes),
    decreases window.len(),
{
    let front = window.drop_last();
    lemma_best_cover(front, quotes);
    if k < window.len() - 1 {
        assert(front[k] == window[k]);
        lemma_no_best(front, quotes, k);
    } else {
        lemma_uncovered(window[k].1, quotes);
        assert forall|q: Seq<char>| #[trigger] quotes.contains(q) implies standing(window[k].1, q)
            == Standing::Missing by {
            lemma_uncovered_keeps(window[k].1, quotes, q);
        }
    }
}

/// What the nearest window leaves lost no snapshot of it carries, and what it
/// takes away some pin carries.
proof fn lemma_window_settled(s: SearchModel)
    ensures
        ({
            let e = best_covers(s);
            &&& forall|q: Seq<char>| #[trigger] e.remaining.contains(q) ==> s.remaining.contains(q)
            &&& forall|q: Seq<char>| #[trigger]
                s.remaining.contains(q) ==> e.remaining.contains(q) || some_carries(e.pins, q)
            &&& forall|q: Seq<char>| #[trigger]
                some_carries(s.pins, q) ==> some_carries(e.pins, q)
            &&& forall|k: int|
                0 <= k < s.window.len() ==> carries_none((#[trigger] s.window[k]).1, e.remaining)
        }),
    decreases s.window.len(),
{
    lemma_best_cover(s.window, s.remaining);
    let e = best_covers(s);
    match best_cover(s.window, s.remaining) {
        None => {
            assert forall|k: int| 0 <= k < s.window.len() implies carries_none(
                (#[trigger] s.window[k]).1,
                e.remaining,
            ) by {
                lemma_no_best(s.window, s.remaining, k);
            }
        },
        Some(i) => {
            let pin = s.window[i];
            let next = SearchModel {
                remaining: uncovered(pin.1, s.remaining),
                pins: s.pins.push(pin),
                window: s.window.remove(i),
            };
            lemma_window_settled(next);
            lemma_pin_takes(s.remaining, s.pins, pin);
            assert forall|q: Seq<char>| #[trigger] some_carries(s.pins, q) implies some_carries(
                e.pins,
                q,
            ) by {
                lemma_pin_carries(s.pins, pin, q);
                assert(some_carries(next.pins, q));
            }
            assert forall|q: Seq<char>| #[trigger] s.remaining.contains(q) implies e.remaining
                .contains(q) || some_carries(e.pins, q) by {
                if !next.remaining.contains(q) {
                    assert(some_carries(next.pins, q));
                }
            }
            assert forall|k: int| 0 <= k < s.window.len() implies carries_none(
                (#[trigger] s.window[k]).1,
                e.remaining,
            ) by {
                if k < i {
                    assert(next.window[k] == s.window[k]);
                } else if k > i {
                    assert(next.window[k - 1] == s.window[k]);
                } else {
                    assert forall|q: Seq<char>| #[trigger] e.remaining.contains(q) implies standing(
                        pin.1,
                        q,
                    ) == Standing::Missing by {
                        assert(next.remaining.contains(q));
                    }
                }
            }
        },
    }
}

/// The `i`-th snapshot was read, and gives nothing of what is still lost
/// unless it is kept back in the nearest window.
spec fn tried_in_vain(
    web: WebModel,
    archive_web: Seq<char>,
    stamps: Seq<Seq<char>>,
    url: Seq<char>,
    s: SearchModel,
    n: int,
    i: int,
) -> bool {
    let pin = pin_url(archive_web, stamps[i], url);
    page_at(web, pin) matches Ok(Some(page)) ==> carries_none(page, s.remaining) || (n
        < PIN_CANDIDATES && n < stamps.len() && s.window.contains((pin, page)))
}

spec fn search_settled(
    web: WebModel,
    archive_web: Seq<char>,
    stamps: Seq<Seq<char>>,
    url: Seq<char>,
    quotes: Seq<Seq<char>>,
    s: SearchModel,
    n: int,
) -> bool {
    &&& forall|q: Seq<char>| #[trigger]
        quotes.contains(q) ==> s.remaining.contains(q) || some_carries(s.pins, q)
    &&& s.remaining.len() > 0 ==> forall|i: int|
        0 <= i < n ==> #[trigger] tried_in_vain(web, archive_web, stamps, url, s, n, i)
}

/// The nearest window comes to its end with everything in it settled.
proof fn lemma_window_end(
    web: WebModel,
    archive_web: Seq<char>,
    stamps: Seq<Seq<char>>,
    url: Seq<char>,
    quotes: Seq<Seq<char>>,
    s: SearchModel,
    n: int,
)
    requires
        0 <= n < stamps.len(),
        forall|q: Seq<char>| #[trigger]
            quotes.contains(q) ==> s.remaining.contains(q) || some_carries(s.pins, q),
        forall|i: int|
            0 <= i <= n ==> {
                let pin = pin_url(archive_web, #[trigger] stamps[i], url);
                page_at(web, pin) matches Ok(Some(page)) ==> carries_none(page, s.remaining) || (n
                    < PIN_CANDIDATES && s.window.contains((pin, page)))
            },
    ensures
        search_settled(
            web,
            archive_web,
            stamps,
            url,
            quotes,
            window_end(s, n, stamps.len() as int),
            n + 1,
        ),
{
    let e = window_end(s, n, stamps.len() as int);
    lemma_window_settled(s);
    assert forall|q: Seq<char>| #[trigger] quotes.contains(q) implies e.remaining.contains(q)
        || some_carries(e.pins, q) by {
        if !s.remaining.contains(q) {
            assert(some_carries(s.pins, q));
        }
    }
    assert forall|i: int| 0 <= i < n + 1 implies #[trigger] tried_in_vain(
        web,
        archive_web,
        stamps,
        url,
        e,
        n + 1,
        i,
    ) by {
        let pin = pin_url(archive_web, stamps[i], url);
        if let Ok(Some(page)) = page_at(web, pin) {
            if s.window.contains((pin, page)) {
                let k = choose|k: int| 0 <= k < s.window.len() && s.window[k] == (pin, page);
                assert(carries_none(s.window[k].1, best_covers(s).remaining));
            }
            if carries_none(page, s.remaining) {
                assert forall|q: Seq<char>| #[trigger] e.remaining.contains(q) implies standing(
                    page,
                    q,
                ) == Standing::Missing by {
                    assert(s.remaining.contains(q));
                }
            }
        }
    }
}

proof fn lemma_all_settled(
    web: WebModel,
    archive_web: Seq<char>,
    stamps: Seq<Seq<char>>,
    url: Seq<char>,
    quotes: Seq<Seq<char>>,
    n: nat,
)
    requires
        n <= stamps.len(),
    ensures
        search(web, archive_web, stamps, url, quotes, n) matches Ok(s) ==> search_settled(
            web,
            archive_web,
            stamps,
            url,
            quotes,
            s,
            n as int,
        ),
    decreases n,
{
    if n > 0 && search(web, archive_web, stamps, url, quotes, n) is Ok {
        let last = n - 1;
        lemma_all_settled(web, archive_web, stamps, url, quotes, last as nat);
        let s = search(web, archive_web, stamps, url, quotes, last as nat)->Ok_0;
        if s.remaining.len() > 0 {
            let pin = pin_url(archive_web, stamps[last], url);
            let e = search(web, archive_web, stamps, url, quotes, n)->Ok_0;
            assert forall|i: int| 0 <= i < last implies {
                let p = pin_url(archive_web, #[trigger] stamps[i], url);
                page_at(web, p) matches Ok(Some(page)) ==> carries_none(page, s.remaining) || (last
                    < PIN_CANDIDATES && s.window.contains((p, page)))
            } by {
                assert(tried_in_vain(web, archive_web, stamps, url, s, last, i));
            }
            match page_at(web, pin)->Ok_0 {
                None => {
                    lemma_window_end(web, archive_web, stamps, url, quotes, s, last);
                },
                Some(text) => {
                    lemma_pin_takes(s.remaining, s.pins, (pin, text));
                    lemma_uncovered(text, s.remaining);
                    let left = uncovered(text, s.remaining);
                    if left.len() > 0 && last < PIN_CANDIDATES {
                        let kept = SearchModel { window: s.window.push((pin, text)), ..s };
                        assert forall|i: int| 0 <= i <= last implies {
                            let p = pin_url(archive_web, #[trigger] stamps[i], url);
                            page_at(web, p) matches Ok(Some(page)) ==> carries_none(
                                page,
                                kept.remaining,
                            ) || (last < PIN_CANDIDATES && kept.window.contains((p, page)))
                        } by {
                            let p = pin_url(archive_web, stamps[i], url);
                            if let Ok(Some(page)) = page_at(web, p) {
                                if i == last {
                                    assert(kept.window[s.window.len() as int] == (pin, text));
                                } else if s.window.contains((p, page)) {
                                    let k = choose|k: int|
                                        0 <= k < s.window.len() && s.window[k] == (p, page);
                                    assert(kept.window[k] == (p, page));
                                }
                            }
                        }
                        lemma_window_end(web, archive_web, stamps, url, quotes, kept, last);
                    } else {
                        assert forall|q: Seq<char>| #[trigger] quotes.contains(q) implies e.remaining
                            .contains(q) || some_carries(e.pins, q) by {
                            if some_carries(s.pins, q) {
                                lemma_pin_carries(s.pins, (pin, text), q);
                            }
                        }
                        if e.remaining.len() > 0 {
                            assert forall|i: int| 0 <= i < n implies #[trigger] tried_in_vain(
                                web,
                                archive_web,
                                stamps,
                                url,
                                e,
                                n as int,
                                i,
                            ) by {
                                let p = pin_url(archive_web, stamps[i], url);
                                if let Ok(Some(page)) = page_at(web, p) {
                                    assert forall|q: Seq<char>| #[trigger]
                                        e.remaining.contains(q) implies standing(page, q)
                                        == Standing::Missing by {
                                        assert(s.remaining.contains(q));
                                        if i == last {
                                            lemma_uncovered_keeps(text, s.remaining, q);
                                        }
                                    }
                                }
                            }
                        }
                    }
                },
            }
        }
    }
}

/// A quote that a search leaves without a pin is in none of the snapshots that
/// it may fetch.
pub proof fn what_stays_lost_is_in_no_snapshot_tried(
    web: WebModel,
    archive_web: Seq<char>,
    url: Seq<char>,
    quotes: Seq<Seq<char>>,
    q: Seq<char>,
    i: int,
)
    requires
        pins_found(web, archive_web, url, quotes) matches Ok(pins) && !some_carries(pins, q),
        quotes.contains(q),
        stamps_at(web, url) matches Ok(all) && 0 <= i < all.len() && i < PIN_FETCH_BUDGET,
    ensures
        page_at(web, pin_url(archive_web, stamps_at(web, url)->Ok_0[i], url)) matches Ok(Some(page))
            ==> standing(page, q) == Standing::Missing,
{
    let all = stamps_at(web, url)->Ok_0;
    let stamps = at_most(all, PIN_FETCH_BUDGET as nat);
    lemma_all_settled(web, archive_web, stamps, url, quotes, stamps.len());
    let s = search(web, archive_web, stamps, url, quotes, stamps.len())->Ok_0;
    assert(s.remaining.contains(q));
    assert(stamps[i] == all[i]);
    assert(tried_in_vain(web, archive_web, stamps, url, s, stamps.len() as int, i));
}

/// The first `n` snapshots were read and none of them carries every quote.
pub open spec fn none_carries_all(
    web: WebModel,
    archive_web: Seq<char>,
    stamps: Seq<Seq<char>>,
    url: Seq<char>,
    quotes: Seq<Seq<char>>,
    n: int,
) -> bool {
    forall|j: int|
        0 <= j < n ==> match page_at(web, pin_url(archive_web, #[trigger] stamps[j], url)) {
            Err(_) => false,
            Ok(None) => true,
            Ok(Some(page)) => uncovered(page, quotes).len() > 0,
        }
}

proof fn lemma_window_fills(
    web: WebModel,
    archive_web: Seq<char>,
    stamps: Seq<Seq<char>>,
    url: Seq<char>,
    quotes: Seq<Seq<char>>,
    n: nat,
)
    requires
        n < stamps.len(),
        n < PIN_CANDIDATES,
        quotes.len() > 0,
        none_carries_all(web, archive_web, stamps, url, quotes, n as int),
    ensures
        search(web, archive_web, stamps, url, quotes, n) matches Ok(s) && s.remaining == quotes
            && s.pins.len() == 0,
    decreases n,
{
    if n > 0 {
        lemma_window_fills(web, archive_web, stamps, url, quotes, (n - 1) as nat);
        let pin = pin_url(archive_web, stamps[n - 1], url);
        assert(page_at(web, pin) is Ok);
    }
}

proof fn lemma_search_stops(
    web: WebModel,
    archive_web: Seq<char>,
    stamps: Seq<Seq<char>>,
    url: Seq<char>,
    quotes: Seq<Seq<char>>,
    n: nat,
    m: nat,
)
    requires
        n <= m,
        search(web, archive_web, stamps, url, quotes, n) matches Ok(s) && s.remaining.len() == 0,
    ensures
        search(web, archive_web, stamps, url, quotes, m) == search(
            web,
            archive_web,
            stamps,
            url,
            quotes,
            n,
        ),
    decreases m,
{
    if n < m {
        lemma_search_stops(web, archive_web, stamps, url, quotes, n, (m - 1) as nat);
    }
}

/// The first of the nearest snapshots that carries every lost quote is pinned,
/// and nothing else.
pub proof fn a_full_copy_is_pinned_alone(
    web: WebModel,
    archive_web: Seq<char>,
    url: Seq<char>,
    quotes: Seq<Seq<char>>,
    i: int,
    page: Seq<char>,
)
    requires
        quotes.len() > 0,
        stamps_at(web, url) matches Ok(all) && 0 <= i < all.len() && i < PIN_CANDIDATES
            && none_carries_all(web, archive_web, all, url, quotes, i) && page_at(
            web,
            pin_url(archive_web, all[i], url),
        ) == Ok::<Option<Seq<char>>, RequestModel>(Some(page)),
        uncovered(page, quotes).len() == 0,
    ensures
        pins_found(web, archive_web, url, quotes) == Ok::<
            Seq<(Seq<char>, Seq<char>)>,
            RequestModel,
        >(seq![(pin_url(archive_web, stamps_at(web, url)->Ok_0[i], url), page)]),
{
    let all = stamps_at(web, url)->Ok_0;
    let stamps = at_most(all, PIN_FETCH_BUDGET as nat);
    let pin = pin_url(archive_web, all[i], url);
    assert(stamps[i] == all[i]);
    assert(none_carries_all(web, archive_web, stamps, url, quotes, i)) by {
        assert forall|j: int| 0 <= j < i implies (match page_at(
            web,
            pin_url(archive_web, #[trigger] stamps[j], url),
        ) {
            Err(_) => false,
            Ok(None) => true,
            Ok(Some(page)) => uncovered(page, quotes).len() > 0,
        }) by {
            assert(stamps[j] == all[j]);
        }
    }
    lemma_window_fills(web, archive_web, stamps, url, quotes, i as nat);
    let s = search(web, archive_web, stamps, url, quotes, i as nat)->Ok_0;
    let e = search(web, archive_web, stamps, url, quotes, (i + 1) as nat)->Ok_0;
    assert(e.pins =~= seq![(pin, page)]);
    lemma_search_stops(web, archive_web, stamps, url, quotes, (i + 1) as nat, stamps.len());
}

// ---------------------------------------------------------------------------
// More answers
// ---------------------------------------------------------------------------

/// What is known in one map is known in the other.
pub open spec fn kept<V>(a: Map<Seq<char>, V>, b: Map<Seq<char>, V>) -> bool {
    forall|k: Seq<char>| #[trigger]
        a.dom().contains(k) ==> b.dom().contains(k) && b[k] == a[k]
}

/// Everything that was learned before is still known.
pub open spec fn extends(a: WebModel, b: WebModel) -> bool {
    &&& kept(a.live, b.live)
    &&& kept(a.pages, b.pages)
    &&& kept(a.stamps, b.stamps)
    &&& kept(a.lookups, b.lookups)
}

proof fn lemma_exact_kept(
    a: WebModel,
    b: WebModel,
    pins: Seq<Seq<char>>,
    quote: Seq<char>,
    k: nat,
)
    requires
        extends(a, b),
        exact_from(a, pins, quote, k) is Ok,
    ensures
        exact_from(b, pins, quote, k) == exact_from(a, pins, quote, k),
    decreases pins.len() - k,
{
    if k < pins.len() {
        if page_at(a, pins[k as int]) is Ok {
            match page_at(a, pins[k as int])->Ok_0 {
                Some(page) if standing(page, quote) == Standing::Present => {},
                _ => {
                    lemma_exact_kept(a, b, pins, quote, k + 1);
                },
            }
        }
    }
}

proof fn lemma_search_kept(
    a: WebModel,
    b: WebModel,
    archive_web: Seq<char>,
    stamps: Seq<Seq<char>>,
    url: Seq<char>,
    missing: Seq<Seq<char>>,
    n: nat,
)
    requires
        extends(a, b),
        search(a, archive_web, stamps, url, missing, n) is Ok,
    ensures
        search(b, archive_web, stamps, url, missing, n) == search(
            a,
            archive_web,
            stamps,
            url,
            missing,
            n,
        ),
    decreases n,
{
    if n > 0 {
        lemma_search_kept(a, b, archive_web, stamps, url, missing, (n - 1) as nat);
    }
}

proof fn lemma_known_kept(
    a: WebModel,
    b: WebModel,
    verdicts: Seq<VerdictModel>,
    known: Seq<Seq<char>>,
    n: nat,
)
    requires
        extends(a, b),
        n <= known.len(),
        cover_known(a, verdicts, known, n) is Ok,
    ensures
        cover_known(b, verdicts, known, n) == cover_known(a, verdicts, known, n),
        lost(cover_known(a, verdicts, known, n)->Ok_0).len() > 0 ==> unread(b, known.take(n as int))
            == unread(a, known.take(n as int)),
    decreases n,
{
    if n > 0 {
        lemma_known_kept(a, b, verdicts, known, (n - 1) as nat);
        assert(known.take(n as int).drop_last() =~= known.take(n - 1));
        assert(known.take(n as int).last() == known[n - 1]);
    } else {
        assert(known.take(0) =~= Seq::<Seq<char>>::empty());
    }
}

proof fn lemma_drift_kept(
    a: WebModel,
    b: WebModel,
    archive_web: Seq<char>,
    url: Seq<char>,
    own: Seq<Seq<char>>,
    archives: Seq<Seq<char>>,
    quotes: Seq<Seq<char>>,
    n: nat,
)
    requires
        extends(a, b),
        drift_all(a, archive_web, url, own, archives, quotes, n) is Ok,
    ensures
        drift_all(b, archive_web, url, own, archives, quotes, n) == drift_all(
            a,
            archive_web,
            url,
            own,
            archives,
            quotes,
            n,
        ),
    decreases n,
{
    if n > 0 {
        lemma_drift_kept(a, b, archive_web, url, own, archives, quotes, (n - 1) as nat);
        let quote = quotes[n - 1];
        lemma_exact_kept(a, b, own, quote, 0);
        if exact_from(a, own, quote, 0)->Ok_0 is None && stamps_at(a, url) is Ok {
            let stamps = at_most(stamps_at(a, url)->Ok_0, PIN_CANDIDATES as nat);
            lemma_exact_kept(a, b, pin_urls(archive_web, stamps, url), quote, 0);
        }
    }
}

proof fn lemma_live_kept(
    all: Seq<TermModel>,
    a: WebModel,
    b: WebModel,
    archive_web: Seq<char>,
    url: Seq<char>,
    page: Seq<char>,
    t: TallyModel,
    term: Seq<char>,
)
    requires
        extends(a, b),
        live_term(all, a, archive_web, url, page, t, term) is Ok,
    ensures
        live_term(all, b, archive_web, url, page, t, term) == live_term(
            all,
            a,
            archive_web,
            url,
            page,
            t,
            term,
        ),
{
    let own = own_pins(all, term, url);
    let known = known_pins(own, t.archives);
    let first = verified(page, quotes_of(all, term, url));
    lemma_known_kept(a, b, first, known, known.len());
    assert(known.take(known.len() as int) =~= known);
    let v = cover_known(a, first, known, known.len())->Ok_0;
    if lost(v).len() > 0 {
        let stamps = at_most(stamps_at(a, url)->Ok_0, PIN_FETCH_BUDGET as nat);
        lemma_search_kept(a, b, archive_web, stamps, url, lost(v), stamps.len());
    }
    let (verdicts, archives) = searched(a, archive_web, url, v, t.archives)->Ok_0;
    let told = report_needed(
        TallyModel { archives, quotes: t.quotes.insert(term, word_of(verdicts)), ..t },
        term,
        url,
        own,
        verdicts,
    );
    if lost(verdicts).len() == 0 {
        let quotes = drifted(verdicts);
        lemma_drift_kept(a, b, archive_web, url, own, told.archives, quotes, quotes.len());
    }
}

proof fn lemma_live_terms_kept(
    all: Seq<TermModel>,
    a: WebModel,
    b: WebModel,
    archive_web: Seq<char>,
    url: Seq<char>,
    page: Seq<char>,
    t: TallyModel,
    terms: Seq<Seq<char>>,
    n: nat,
)
    requires
        extends(a, b),
        live_terms(all, a, archive_web, url, page, t, terms, n) is Ok,
    ensures
        live_terms(all, b, archive_web, url, page, t, terms, n) == live_terms(
            all,
            a,
            archive_web,
            url,
            page,
            t,
            terms,
            n,
        ),
    decreases n,
{
    if n > 0 {
        lemma_live_terms_kept(all, a, b, archive_web, url, page, t, terms, (n - 1) as nat);
        let u = live_terms(all, a, archive_web, url, page, t, terms, (n - 1) as nat)->Ok_0;
        lemma_live_kept(all, a, b, archive_web, url, page, u, terms[n - 1]);
    }
}

proof fn lemma_offer_kept(
    a: WebModel,
    b: WebModel,
    archives: Seq<Seq<char>>,
    own: Seq<Seq<char>>,
    k: nat,
)
    requires
        extends(a, b),
        offer_from(a, archives, own, k) is Ok,
    ensures
        offer_from(b, archives, own, k) == offer_from(a, archives, own, k),
    decreases archives.len() - k,
{
    if k < archives.len() {
        if own.contains(archives[k as int]) || page_at(a, archives[k as int])->Ok_0 is None {
            lemma_offer_kept(a, b, archives, own, k + 1);
        }
    }
}

proof fn lemma_unreachable_terms_kept(
    all: Seq<TermModel>,
    a: WebModel,
    b: WebModel,
    url: Seq<char>,
    site: Seq<char>,
    reason: Seq<char>,
    t: TallyModel,
    terms: Seq<Seq<char>>,
    n: nat,
)
    requires
        extends(a, b),
        unreachable_terms(all, a, url, site, reason, t, terms, n) is Ok,
    ensures
        unreachable_terms(all, b, url, site, reason, t, terms, n) == unreachable_terms(
            all,
            a,
            url,
            site,
            reason,
            t,
            terms,
            n,
        ),
    decreases n,
{
    if n > 0 {
        lemma_unreachable_terms_kept(all, a, b, url, site, reason, t, terms, (n - 1) as nat);
        let u = unreachable_terms(all, a, url, site, reason, t, terms, (n - 1) as nat)->Ok_0;
        let own = own_pins(all, terms[n - 1], url);
        lemma_offer_kept(a, b, own, Seq::empty(), 0);
        if offer_from(a, own, Seq::empty(), 0)->Ok_0 is None {
            lemma_offer_kept(a, b, u.archives, own, 0);
        }
    }
}

/// What the check of a page comes to is not changed by further answers.
pub proof fn further_answers_change_nothing(
    all: Seq<TermModel>,
    a: WebModel,
    b: WebModel,
    archive_web: Seq<char>,
    now: Seq<char>,
    url: Seq<char>,
    entry: EntryModel,
    down: Map<Seq<char>, Seq<char>>,
)
    requires
        extends(a, b),
        entry_step(all, a, archive_web, now, url, entry, down) is Ok,
    ensures
        entry_step(all, b, archive_web, now, url, entry, down) == entry_step(
            all,
            a,
            archive_web,
            now,
            url,
            entry,
            down,
        ),
{
    if host(url) is Some {
        let site = host(url)->Some_0;
        match live_at(a, url, site, down)->Ok_0 {
            LiveModel::Unreachable(reason) => {
                lemma_unreachable_terms_kept(
                    all,
                    a,
                    b,
                    url,
                    site,
                    reason,
                    fresh_tally(entry, looked_up(a, url, entry.archives)->Ok_0),
                    entry.cited_by,
                    entry.cited_by.len(),
                );
            },
            LiveModel::Dead(_) => {},
            LiveModel::Page { status, digest, page } => {
                lemma_live_terms_kept(
                    all,
                    a,
                    b,
                    archive_web,
                    url,
                    page,
                    fresh_tally(entry, entry.archives),
                    entry.cited_by,
                    entry.cited_by.len(),
                );
            },
        }
    }
}

/// A pass that stops for an answer and goes on with it comes to the same as
/// one that had every answer from the start.
pub proof fn going_on_is_starting_again(
    all: Seq<TermModel>,
    a: WebModel,
    b: WebModel,
    archive_web: Seq<char>,
    now: Seq<char>,
    p: PassModel,
)
    requires
        extends(a, b),
    ensures
        run_from(all, b, archive_web, now, run_from(all, a, archive_web, now, p).0) == run_from(
            all,
            b,
            archive_web,
            now,
            p,
        ),
    decreases p.keys.len() - p.next,
{
    if p.next < p.keys.len() {
        let url = p.keys[p.next as int];
        let step = entry_step(all, a, archive_web, now, url, p.lock[url], p.down);
        if step is Ok {
            further_answers_change_nothing(
                all,
                a,
                b,
                archive_web,
                now,
                url,
                p.lock[url],
                p.down,
            );
            going_on_is_starting_again(all, a, b, archive_web, now, applied(p, step->Ok_0));
        }
    }
}

// ---------------------------------------------------------------------------
// Pins on lines
// ---------------------------------------------------------------------------

/// Text around a passage does not hide it: a page that holds the passage
/// carries it word for word.
pub proof fn text_around_a_passage_does_not_hide_it(
    before: Seq<char>,
    passage: Seq<char>,
    after: Seq<char>,
)
    ensures
        standing(before + normal(passage) + after, passage) == Standing::Present,
{
    lemma_has_part(before, normal(passage), after);
}

proof fn lemma_anchors_hold(pins: Seq<Seq<char>>, k: int)
    requires
        0 <= k < pins.len(),
    ensures
        has(pin_anchors(pins), pins[k]),
    decreases pins.len(),
{
    let front = pin_anchors(pins.drop_last());
    if k == pins.len() - 1 {
        let pin = pins[k];
        let open = " <a href=\""@;
        let rest = "\" target=\"_blank\">"@ + pin_label(pin) + "</a>"@;
        assert(pin_anchor(pin) =~= open + pin + rest);
        lemma_has_part(front + open, pin, rest);
        assert(pin_anchors(pins) =~= front + open + pin + rest);
    } else {
        lemma_anchors_hold(pins.drop_last(), k);
        assert(pins.drop_last()[k] == pins[k]);
        lemma_has_more(Seq::empty(), front, pin_anchor(pins.last()), pins[k]);
        assert(Seq::<char>::empty() + front + pin_anchor(pins.last()) =~= pin_anchors(pins));
    }
}

proof fn lemma_absent(line: Seq<char>, pins: Seq<Seq<char>>)
    ensures
        forall|p: Seq<char>| #[trigger]
            absent_pins(line, pins).contains(p) <==> pins.contains(p) && !(has(line, p)),
    decreases pins.len(),
{
    if pins.len() > 0 {
        let front = pins.drop_last();
        lemma_absent(line, front);
        let r = absent_pins(line, pins);
        assert forall|p: Seq<char>| #[trigger] r.contains(p) <==> pins.contains(p) && !(has(
            line,
            p,
        )) by {
            lemma_contains_last(pins, p);
            assert(absent_pins(line, front).contains(p) <==> front.contains(p) && !(has(line, p)));
            if !(has(line, pins.last())) {
                lemma_contains_last(r, p);
                assert(r.drop_last() =~= absent_pins(line, front));
            }
        }
    }
}

proof fn lemma_pins_length(rest: Seq<char>, url: Seq<char>)
    ensures
        0 <= pins_length(rest, url) <= rest.len(),
    decreases rest.len(),
{
    let n = leading_pin(regex_matches(LEADING_ANCHOR@, rest).0, url);
    if 0 < n <= rest.len() && ends(rest.take(n), "</a>"@) {
        lemma_pins_length(rest.skip(n), url);
    }
}

proof fn lemma_pin_place(line: Seq<char>, url: Seq<char>)
    ensures
        pin_place(line, url) matches Some(cut) ==> 0 <= cut <= line.len(),
{
    reveal_strlit("</a>");
    lemma_first_of(line, href(url));
    if first_of(line, href(url)) is Some {
        let at = first_of(line, href(url))->Some_0;
        lemma_first_of(line.skip(at), "</a>"@);
        if first_of(line.skip(at), "</a>"@) is Some {
            let close = first_of(line.skip(at), "</a>"@)->Some_0;
            lemma_pins_length(line.skip(at + close + 4), url);
        }
    }
}

/// Writing pins adds to a line and takes nothing away: what stood before and
/// after the place of the pins still stands there, and each pin that was
/// absent is there now.
pub proof fn pinning_adds_what_was_absent(
    line: Seq<char>,
    url: Seq<char>,
    pins: Seq<Seq<char>>,
    pin: Seq<char>,
)
    requires
        line_changes(line, url, pins),
        pins.contains(pin),
        !(has(line, pin)),
    ensures
        has(pinned_line(line, url, pins), pin),
        line.take(pin_place(line, url)->Some_0).is_prefix_of(pinned_line(line, url, pins)),
        line.skip(pin_place(line, url)->Some_0).is_suffix_of(pinned_line(line, url, pins)),
{
    lemma_pin_place(line, url);
    let cut = pin_place(line, url)->Some_0;
    let absent = absent_pins(line, pins);
    lemma_absent(line, pins);
    assert(absent.contains(pin));
    let k = choose|k: int| 0 <= k < absent.len() && absent[k] == pin;
    lemma_anchors_hold(absent, k);
    lemma_has_more(line.take(cut), pin_anchors(absent), line.skip(cut), pin);
    let r = pinned_line(line, url, pins);
    assert(line.take(cut) =~= r.take(cut));
    assert(line.skip(cut) =~= r.skip(r.len() - line.skip(cut).len()));
}

/// A pin could be parted by what is written behind a closing tag: some part
/// of it, up to a place inside it, ends in the tag or is an end of the tag.
pub open spec fn cut_by_tag(pin: Seq<char>) -> bool {
    exists|k: int|
        0 < k < pin.len() && (ends(#[trigger] pin.take(k), "</a>"@) || ends(
            "</a>"@,
            pin.take(k),
        ))
}

/// A pin on a line is still there when something is written behind a closing
/// tag.
proof fn lemma_pin_kept(line: Seq<char>, cut: int, more: Seq<char>, pin: Seq<char>)
    requires
        0 <= cut <= line.len(),
        ends(line.take(cut), "</a>"@),
        has(line, pin),
        !cut_by_tag(pin),
    ensures
        has(line.take(cut) + more + line.skip(cut), pin),
{
    let tag = "</a>"@;
    let front = line.take(cut);
    let back = line.skip(cut);
    let whole = front + more + back;
    lemma_first_of(line, pin);
    let j = first_of(line, pin)->Some_0;
    assert(line.skip(j).take(pin.len() as int) == pin);
    if j + pin.len() <= cut {
        assert(front =~= line.take(j) + pin + front.skip(j + pin.len()));
        lemma_has_part(line.take(j), pin, front.skip(j + pin.len()));
        lemma_has_more(Seq::empty(), front, more + back, pin);
        assert(Seq::<char>::empty() + front + (more + back) =~= whole);
    } else if j >= cut {
        assert(back =~= line.subrange(cut, j) + pin + line.skip(j + pin.len()));
        lemma_has_part(line.subrange(cut, j), pin, line.skip(j + pin.len()));
        lemma_has_more(front + more, back, Seq::empty(), pin);
        assert(front + more + back + Seq::<char>::empty() =~= whole);
    } else {
        let k = cut - j;
        let part = pin.take(k);
        assert(part =~= line.subrange(j, cut));
        assert(front.skip(front.len() - tag.len()) == tag);
        if k >= tag.len() {
            assert(part.skip(k - tag.len()) =~= tag);
            assert(ends(part, tag));
        } else {
            assert(tag.skip(tag.len() - k) =~= part);
            assert(ends(tag, part));
        }
    }
}

proof fn lemma_pins_end_in_tag(rest: Seq<char>, url: Seq<char>)
    ensures
        pins_length(rest, url) > 0 ==> ends(rest.take(pins_length(rest, url)), "</a>"@),
    decreases rest.len(),
{
    let tag = "</a>"@;
    let n = leading_pin(regex_matches(LEADING_ANCHOR@, rest).0, url);
    if 0 < n <= rest.len() && ends(rest.take(n), tag) {
        lemma_pins_end_in_tag(rest.skip(n), url);
        lemma_pins_length(rest.skip(n), url);
        let m = pins_length(rest.skip(n), url);
        if m > 0 {
            let back = rest.skip(n).take(m);
            let whole = rest.take(n + m);
            assert(back.skip(m - tag.len()) == tag);
            assert(whole.skip(n + m - tag.len()) =~= back.skip(m - tag.len()));
        }
    }
}

/// New pins go directly behind a closing tag.
proof fn lemma_place_behind_tag(line: Seq<char>, url: Seq<char>)
    ensures
        pin_place(line, url) matches Some(cut) ==> 0 <= cut <= line.len() && ends(
            line.take(cut),
            "</a>"@,
        ),
{
    let tag = "</a>"@;
    lemma_pin_place(line, url);
    if pin_place(line, url) is Some {
        reveal_strlit("</a>");
        lemma_first_of(line, href(url));
        let at = first_of(line, href(url))->Some_0;
        lemma_first_of(line.skip(at), tag);
        let start = at + first_of(line.skip(at), tag)->Some_0 + 4;
        let rest = line.skip(start);
        let m = pins_length(rest, url);
        let cut = start + m;
        lemma_pins_length(rest, url);
        lemma_pins_end_in_tag(rest, url);
        if m > 0 {
            assert(rest.take(m).skip(m - 4) == tag);
            assert(line.take(cut).skip(cut - 4) =~= rest.take(m).skip(m - 4));
        } else {
            let close = start - 4;
            assert(line.skip(at).skip(close - at) =~= line.skip(close));
            assert(line.skip(close).take(4) == tag);
            assert(line.take(cut).skip(cut - 4) =~= line.skip(close).take(4));
        }
    }
}

/// Pins are written once: a line that has been given the pins that it lacked
/// holds all of them and is not changed again. Left out are pins that it held
/// before and that writing behind a closing tag could part.
pub proof fn pins_are_written_once(line: Seq<char>, url: Seq<char>, pins: Seq<Seq<char>>)
    requires
        forall|i: int|
            0 <= i < pins.len() && has(line, #[trigger] pins[i]) ==> !cut_by_tag(pins[i]),
    ensures
        !line_changes(pinned_line(line, url, pins), url, pins),
        pinned_line(pinned_line(line, url, pins), url, pins) == pinned_line(line, url, pins),
{
    let r = pinned_line(line, url, pins);
    if line_changes(line, url, pins) {
        lemma_absent(r, pins);
        lemma_place_behind_tag(line, url);
        let cut = pin_place(line, url)->Some_0;
        let absent = absent_pins(r, pins);
        if absent.len() > 0 {
            let pin = absent[0];
            assert(absent.contains(pin));
            let k = choose|k: int| 0 <= k < pins.len() && pins[k] == pin;
            if has(line, pins[k]) {
                lemma_pin_kept(line, cut, pin_anchors(absent_pins(line, pins)), pin);
            } else {
                pinning_adds_what_was_absent(line, url, pins, pin);
            }
        }
    }
}

/// A line of a text: a line break stands at its end or nowhere.
spec fn one_line(line: Seq<char>) -> bool {
    &&& line.len() > 0
    &&& forall|i: int| 0 <= i < line.len() - 1 ==> #[trigger] line[i] != '\n'
}

proof fn lemma_first_line(s: Seq<char>)
    requires
        s.len() > 0,
    ensures
        0 < line_length(s) <= s.len(),
        one_line(s.take(line_length(s))),
        line_length(s) < s.len() ==> s.take(line_length(s)).last() == '\n',
{
    lemma_until(s, '\n');
    let line = s.take(line_length(s));
    assert forall|i: int| 0 <= i < line.len() - 1 implies #[trigger] line[i] != '\n' by {
        assert(line[i] == s[i]);
    }
}

proof fn lemma_line_cut(line: Seq<char>, rest: Seq<char>)
    requires
        one_line(line),
        line.last() == '\n' || rest.len() == 0,
    ensures
        line_length(line + rest) == line.len(),
        (line + rest).take(line.len() as int) == line,
        (line + rest).skip(line.len() as int) == rest,
{
    let all = line + rest;
    lemma_until(all, '\n');
    let n = until(all, '\n') as int;
    if n < line.len() - 1 {
        assert(line[n] == all[n]);
    }
    if line.last() == '\n' {
        assert(all[line.len() - 1] == '\n');
    }
    assert(all.take(line.len() as int) =~= line);
    assert(all.skip(line.len() as int) =~= rest);
}

/// Each pin is written on one line and is not parted by a closing tag.
pub open spec fn pins_fit(pins: Seq<Seq<char>>) -> bool {
    forall|i: int|
        0 <= i < pins.len() ==> !pin_anchor(#[trigger] pins[i]).contains('\n') && !cut_by_tag(
            pins[i],
        )
}

proof fn lemma_anchors_one_line(pins: Seq<Seq<char>>)
    requires
        forall|i: int| 0 <= i < pins.len() ==> !pin_anchor(#[trigger] pins[i]).contains('\n'),
    ensures
        forall|i: int| 0 <= i < pin_anchors(pins).len() ==> #[trigger] pin_anchors(pins)[i] != '\n',
    decreases pins.len(),
{
    if pins.len() > 0 {
        let front = pins.drop_last();
        assert forall|i: int| 0 <= i < front.len() implies !pin_anchor(
            #[trigger] front[i],
        ).contains('\n') by {
            assert(front[i] == pins[i]);
        }
        lemma_anchors_one_line(front);
        let last = pin_anchor(pins.last());
        assert(!pin_anchor(pins[pins.len() - 1]).contains('\n'));
        assert forall|i: int| 0 <= i < pin_anchors(pins).len() implies #[trigger] pin_anchors(
            pins,
        )[i] != '\n' by {
            let before = pin_anchors(front);
            if i < before.len() {
                assert(pin_anchors(pins)[i] == before[i]);
            } else {
                assert(pin_anchors(pins)[i] == last[i - before.len()]);
            }
        }
    }
}

/// A line with new pins is still one line, ended as before.
proof fn lemma_line_stays(line: Seq<char>, url: Seq<char>, pins: Seq<Seq<char>>)
    requires
        one_line(line),
        pins_fit(pins),
    ensures
        one_line(pinned_line(line, url, pins)),
        (pinned_line(line, url, pins).last() == '\n') == (line.last() == '\n'),
{
    if line_changes(line, url, pins) {
        let r = pinned_line(line, url, pins);
        let absent = absent_pins(line, pins);
        lemma_absent(line, pins);
        assert forall|i: int| 0 <= i < absent.len() implies !pin_anchor(
            #[trigger] absent[i],
        ).contains('\n') by {
            assert(absent.contains(absent[i]));
            let k = choose|k: int| 0 <= k < pins.len() && pins[k] == absent[i];
            assert(!pin_anchor(pins[k]).contains('\n'));
        }
        lemma_anchors_one_line(absent);
        lemma_place_behind_tag(line, url);
        let cut = pin_place(line, url)->Some_0;
        let front = line.take(cut);
        let added = pin_anchors(absent);
        reveal_strlit("</a>");
        assert(front.skip(cut - 4)[3] == '>');
        assert(front[cut - 1] == '>');
        assert(line[cut - 1] == '>');
        assert(added.len() > 0) by {
            reveal_strlit(" <a href=\"");
            assert(pin_anchor(absent.last()).len() > 0);
        }
        assert forall|i: int| 0 <= i < r.len() - 1 implies #[trigger] r[i] != '\n' by {
            if i < cut {
                assert(r[i] == line[i]);
            } else if i < cut + added.len() {
                assert(r[i] == added[i - cut]);
            } else {
                assert(r[i] == line[i - added.len()]);
            }
        }
        if cut < line.len() {
            assert(r.last() == line.last());
        } else {
            assert(r.last() == added[added.len() - 1]);
        }
    }
}

/// Pinning a text a second time changes nothing: every line that has an
/// anchor of the page holds all of the pins already.
pub proof fn pinning_twice_is_pinning_once(s: Seq<char>, url: Seq<char>, pins: Seq<Seq<char>>)
    requires
        pins_fit(pins),
    ensures
        pinned_text(pinned_text(s, url, pins), url, pins) == pinned_text(s, url, pins),
        !text_changes(pinned_text(s, url, pins), url, pins),
    decreases s.len(),
{
    if s.len() > 0 {
        lemma_first_line(s);
        let n = line_length(s);
        let line = s.take(n);
        let r = pinned_line(line, url, pins);
        let rest = pinned_text(s.skip(n), url, pins);
        pinning_twice_is_pinning_once(s.skip(n), url, pins);
        lemma_line_stays(line, url, pins);
        pins_are_written_once(line, url, pins);
        lemma_line_cut(r, rest);
    }
}

proof fn lemma_same_terms(a: Seq<FileModel>, b: Seq<FileModel>, term: Seq<char>)
    requires
        a.len() == b.len(),
        forall|i: int| 0 <= i < a.len() ==> (#[trigger] a[i]).term == b[i].term,
    ensures
        file_index(a, term) == file_index(b, term),
        file_index(a, term) matches Some(i) ==> 0 <= i < a.len(),
    decreases a.len(),
{
    if a.len() > 0 {
        assert(a[a.len() - 1].term == b[b.len() - 1].term);
        lemma_same_terms(a.drop_last(), b.drop_last(), term);
    }
}

/// Writing the same pins a second time changes no node and no finding.
pub proof fn a_second_pin_fix_changes_nothing(s: FixModel, w: WriteModel)
    requires
        pins_fit(w.pins),
    ensures
        pin_fixes(pin_fixes(s, seq![w], 1), seq![w], 1) == pin_fixes(s, seq![w], 1),
{
    reveal_with_fuel(pin_fixes, 2);
    let t = pin_fix_step(s, w);
    lemma_same_terms(s.files, s.files, w.term);
    lemma_same_terms(s.files, t.files, w.term);
    if file_index(s.files, w.term) is Some {
        let i = file_index(s.files, w.term)->Some_0;
        pinning_twice_is_pinning_once(s.files[i].content, w.url, w.pins);
    }
}

}
