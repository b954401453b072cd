//! What a check of the cited pages reports, and what it leaves in the lock.

use vstd::prelude::*;
use vstd::utf8::encode_utf8;

use crate::commands::audit::FindingModel;
use crate::commands::source_check::pass::{
    applied, entry_step, fresh_tally, live_at, live_terms, looked_up, OutcomeModel, PassModel,
};
use crate::commands::source_check::quotes::{standing, Standing};
use crate::commands::source_check::search::{
    at_most, best_cover, exact_from, exact_pin, page_at, pin_failure, pin_urls, uncovered,
};
use crate::commands::source_check::snapshots::{
    date_in_url, from_start, insert_year, nearer, pick_of_year, raw_url, row_stamps, stamp_day,
    stamp_year, window_of, year_before, years_of,
    PIN_CANDIDATES, PIN_FETCH_BUDGET,
};
use crate::commands::source_check::term::{
    drift_all, drift_step, lost_finding, needed, needing, needs_pin, offer_from, pin_of,
    pinned_verdicts, report_adrift, report_fresh, report_needed, unread, unreachable_term, Drift,
    TallyModel, WriteModel,
};
use crate::commands::source_check::urls::{clipped, encoded, encoded_byte, host, percent_encoded};
use crate::commands::source_check::verdicts::{
    known_pins, others, own_pins, StatusModel, VerdictModel,
};
use crate::commands::source_check::web::{LiveModel, RequestModel, WebModel};
use crate::commands::sources::{add_pins, EntryModel, SourceModel, TermModel};
use crate::number::{decimal, integer_value};
use crate::order::{before, lemma_contains_last};
use crate::pattern::{group, regex_matches};
use crate::text::{append_new, has, join, lemma_append_new, push_new};

verus! {

// ---------------------------------------------------------------------------
// Pins that a line lacks
// ---------------------------------------------------------------------------

/// The pins that a line lacks are the snapshots that carried a quote and do
/// not stand on it, each once; the quote that is shown is the first that such
/// a snapshot carried.
pub proof fn a_line_lacks_the_snapshots_that_carried_a_quote(
    verdicts: Seq<VerdictModel>,
    own: Seq<Seq<char>>,
)
    ensures
        forall|pin: Seq<char>| #[trigger]
            needed(verdicts, own).contains(pin) <==> !own.contains(pin) && exists|i: int|
                0 <= i < verdicts.len() && (#[trigger] verdicts[i]).status
                    == StatusModel::Archived(pin),
        needed(verdicts, own).no_duplicates(),
        needed(verdicts, own).len() > 0 ==> exists|i: int|
            0 <= i < verdicts.len() && needing(verdicts, own) == (#[trigger] verdicts[i]).quote && (
            verdicts[i].status matches StatusModel::Archived(pin) && !own.contains(pin)) && (
            forall|j: int|
                0 <= j < i ==> !((#[trigger] verdicts[j]).status matches StatusModel::Archived(pin)
                    && !own.contains(pin))),
    decreases verdicts.len(),
{
    if verdicts.len() > 0 {
        let front = verdicts.drop_last();
        let last = verdicts.last();
        a_line_lacks_the_snapshots_that_carried_a_quote(front, own);
        assert forall|pin: Seq<char>| #[trigger]
            needed(verdicts, own).contains(pin) <==> !own.contains(pin) && exists|i: int|
                0 <= i < verdicts.len() && (#[trigger] verdicts[i]).status
                    == StatusModel::Archived(pin) by {
            lemma_push_new(needed(front, own), last.status->Archived_0, pin);
            if needed(verdicts, own).contains(pin) {
                if needed(front, own).contains(pin) {
                    let i = choose|i: int|
                        0 <= i < front.len() && (#[trigger] front[i]).status
                            == StatusModel::Archived(pin);
                    assert(verdicts[i].status == StatusModel::Archived(pin));
                } else {
                    assert(verdicts[verdicts.len() - 1].status == StatusModel::Archived(pin));
                }
            }
            if !own.contains(pin) && exists|i: int|
                0 <= i < verdicts.len() && (#[trigger] verdicts[i]).status
                    == StatusModel::Archived(pin) {
                let i = choose|i: int|
                    0 <= i < verdicts.len() && (#[trigger] verdicts[i]).status
                        == StatusModel::Archived(pin);
                if i < front.len() {
                    assert(front[i].status == StatusModel::Archived(pin));
                }
            }
        }
        if needed(front, own).len() > 0 {
            let i = choose|i: int|
                0 <= i < front.len() && needing(front, own) == (#[trigger] front[i]).quote && (
                front[i].status matches StatusModel::Archived(pin) && !own.contains(pin)) && (
                forall|j: int|
                    0 <= j < i ==> !((#[trigger] front[j]).status matches StatusModel::Archived(
                        pin,
                    ) && !own.contains(pin)));
            assert(verdicts[i] == front[i]);
            assert forall|j: int| 0 <= j < i implies !((#[trigger] verdicts[j]).status matches
                StatusModel::Archived(pin) && !own.contains(pin)) by {
                assert(front[j] == verdicts[j]);
            }
        } else if needs_pin(last, own) {
            let i = verdicts.len() - 1;
            assert(verdicts[i] == last);
            assert forall|j: int| 0 <= j < i implies !((#[trigger] verdicts[j]).status matches
                StatusModel::Archived(pin) && !own.contains(pin)) by {
                assert(front[j] == verdicts[j]);
                if verdicts[j].status is Archived && !own.contains(
                    verdicts[j].status->Archived_0,
                ) {
                    assert(needed(front, own).contains(verdicts[j].status->Archived_0));
                }
            }
        }
    }
}

proof fn lemma_push_new(list: Seq<Seq<char>>, x: Seq<char>, y: Seq<char>)
    ensures
        push_new(list, x).contains(y) <==> list.contains(y) || y == x,
        list.no_duplicates() ==> push_new(list, x).no_duplicates(),
{
    if !list.contains(x) {
        assert(list.push(x).drop_last() =~= list);
        lemma_contains_last(list.push(x), y);
    }
}

/// A passage that only a snapshot carries is reported once, as an error: the
/// message names the page, the snapshots and the passage, the remedy is to
/// pin them, and they are to be written beside the link. A line that lacks no
/// pin has nothing to report.
pub proof fn a_passage_that_a_snapshot_carries_is_reported(
    t: TallyModel,
    term: Seq<char>,
    url: Seq<char>,
    own: Seq<Seq<char>>,
    verdicts: Seq<VerdictModel>,
)
    ensures
        ({
            let u = report_needed(t, term, url, own, verdicts);
            let pins = needed(verdicts, own);
            let listed = join(pins, ", "@);
            &&& pins.len() == 0 ==> u == t
            &&& pins.len() > 0 ==> u == (TallyModel {
                archives: t.archives,
                quotes: t.quotes,
                findings: t.findings.push(
                    FindingModel {
                        class: "sources"@,
                        check: "quote_missing"@,
                        severity: "error"@,
                        term,
                        message: "quoted passage no longer found on "@ + url
                            + " but is in the snapshot "@ + listed + ": "@ + ("\u{201c}"@ + clipped(
                            needing(verdicts, own),
                        ) + "\u{201d}"@),
                        fix: Some("pin the archived copy "@ + listed + " beside the link"@),
                        fixed: false,
                    },
                ),
                writes: t.writes.push(WriteModel { term, url, pins }),
            })
        }),
{
}

// ---------------------------------------------------------------------------
// Passages found nowhere
// ---------------------------------------------------------------------------

/// The pins that could not be fetched are told with the reason, and no other.
pub proof fn a_pin_that_failed_is_told_with_its_reason(web: WebModel, known: Seq<Seq<char>>)
    ensures
        forall|x: Seq<char>| #[trigger]
            unread(web, known).contains(x) <==> exists|i: int|
                0 <= i < known.len() && (pin_failure(web, #[trigger] known[i]) matches Some(why) && x
                    == known[i] + " ("@ + why + ")"@),
        unread(web, known).len() == 0 <==> forall|i: int|
            0 <= i < known.len() ==> pin_failure(web, #[trigger] known[i]) is None,
    decreases known.len(),
{
    if known.len() > 0 {
        let front = known.drop_last();
        a_pin_that_failed_is_told_with_its_reason(web, front);
        let list = unread(web, known);
        assert forall|x: Seq<char>| #[trigger] list.contains(x) <==> exists|i: int|
            0 <= i < known.len() && (pin_failure(web, #[trigger] known[i]) matches Some(why) && x
                == known[i] + " ("@ + why + ")"@) by {
            if pin_failure(web, known.last()) is Some {
                assert(list.drop_last() =~= unread(web, front));
                lemma_contains_last(list, x);
            }
            if list.contains(x) {
                if unread(web, front).contains(x) {
                    let i = choose|i: int|
                        0 <= i < front.len() && (pin_failure(web, #[trigger] front[i]) matches Some(
                            why,
                        ) && x == front[i] + " ("@ + why + ")"@);
                    assert(known[i] == front[i]);
                } else {
                    assert(known[known.len() - 1] == known.last());
                }
            }
            if exists|i: int|
                0 <= i < known.len() && (pin_failure(web, #[trigger] known[i]) matches Some(why) && x
                    == known[i] + " ("@ + why + ")"@) {
                let i = choose|i: int|
                    0 <= i < known.len() && (pin_failure(web, #[trigger] known[i]) matches Some(why)
                        && x == known[i] + " ("@ + why + ")"@);
                if i < front.len() {
                    assert(front[i] == known[i]);
                }
            }
        }
        if list.len() == 0 {
            assert forall|i: int| 0 <= i < known.len() implies pin_failure(
                web,
                #[trigger] known[i],
            ) is None by {
                if i < front.len() {
                    assert(front[i] == known[i]);
                }
            }
        }
        if forall|i: int| 0 <= i < known.len() ==> pin_failure(web, #[trigger] known[i]) is None {
            assert(known[known.len() - 1] == known.last());
            assert forall|i: int| 0 <= i < front.len() implies pin_failure(
                web,
                #[trigger] front[i],
            ) is None by {
                assert(front[i] == known[i]);
            }
        }
    }
}

/// Passages found nowhere are one error, which names the pins that lack them;
/// where a pin could not be fetched they are a warning that names it, since
/// it may carry them. The first passage is shown, the others are counted, and
/// nothing can be done about it.
pub proof fn a_passage_found_nowhere_is_told(
    web: WebModel,
    term: Seq<char>,
    url: Seq<char>,
    known: Seq<Seq<char>>,
    pins: Seq<Seq<char>>,
    missing: Seq<Seq<char>>,
)
    requires
        missing.len() > 0,
    ensures
        ({
            let f = lost_finding(web, term, url, known, pins, missing);
            let failed = unread(web, known);
            let first = "\u{201c}"@ + clipped(missing[0]) + "\u{201d}"@;
            let passage = if missing.len() == 1 {
                first
            } else {
                first + (" (+"@ + decimal((missing.len() - 1) as nat) + " more)"@)
            };
            &&& f.class == "sources"@ && f.term == term && f.fix is None && !f.fixed
            &&& failed.len() > 0 ==> {
                &&& f.check == "pin_unreachable"@ && f.severity == "warning"@
                &&& f.message == "quoted passage is not on "@ + url + " and its pinned copy "@
                    + join(failed, ", "@)
                    + " could not be fetched, so the pin was not checked: "@ + passage
            }
            &&& failed.len() == 0 ==> f.check == "quote_missing"@ && f.severity == "error"@
            &&& failed.len() == 0 && pins.len() == 0 ==> f.message
                == "quoted passage no longer found on "@ + url + ": "@ + passage
            &&& failed.len() == 0 && pins.len() > 0 ==> f.message
                == "quoted passage found neither on "@ + url + " nor in its pinned copy "@ + join(
                pins,
                ", "@,
            ) + ": "@ + passage
        }),
{
    let first = "\u{201c}"@ + clipped(missing[0]) + "\u{201d}"@;
    assert(first + Seq::<char>::empty() =~= first);
}

// ---------------------------------------------------------------------------
// Passages that have changed
// ---------------------------------------------------------------------------

/// A snapshot can be read and carries a quote word for word.
pub open spec fn carries_exactly(web: WebModel, pin: Seq<char>, quote: Seq<char>) -> bool {
    page_at(web, pin) matches Ok(Some(text)) && standing(text, quote) == Standing::Present
}

/// The first of the snapshots that carries a quote word for word is taken;
/// none is taken only where none does.
pub proof fn the_first_exact_snapshot_is_taken(
    web: WebModel,
    pins: Seq<Seq<char>>,
    quote: Seq<char>,
    k: nat,
)
    ensures
        exact_from(web, pins, quote, k) matches Ok(Some(pin)) ==> exists|i: int|
            k <= i < pins.len() && #[trigger] pins[i] == pin && carries_exactly(web, pin, quote) && (
            forall|j: int| k <= j < i ==> !carries_exactly(web, #[trigger] pins[j], quote)),
        exact_from(web, pins, quote, k) matches Ok(None) ==> forall|i: int|
            k <= i < pins.len() ==> !carries_exactly(web, #[trigger] pins[i], quote),
    decreases pins.len() - k,
{
    if k < pins.len() && page_at(web, pins[k as int]) is Ok {
        if carries_exactly(web, pins[k as int], quote) {
            assert(pins[k as int] == pins[k as int]);
        } else {
            the_first_exact_snapshot_is_taken(web, pins, quote, k + 1);
            let r = exact_from(web, pins, quote, k + 1);
            assert(exact_from(web, pins, quote, k) == r);
            if r is Ok && r->Ok_0 is Some {
                let pin = r->Ok_0->Some_0;
                let i = choose|i: int|
                    k + 1 <= i < pins.len() && #[trigger] pins[i] == pin && carries_exactly(
                        web,
                        pin,
                        quote,
                    ) && (forall|j: int|
                        k + 1 <= j < i ==> !carries_exactly(web, #[trigger] pins[j], quote));
                assert forall|j: int| k <= j < i implies !carries_exactly(
                    web,
                    #[trigger] pins[j],
                    quote,
                ) by {}
                assert(k <= i < pins.len() && pins[i] == pin);
            }
        }
    }
}

/// The snapshots that may carry a changed passage are the six that are tried
/// first, each under the archive's base, its time and the page's URL.
pub proof fn six_snapshots_are_tried_for_a_changed_passage(
    web: WebModel,
    archive_web: Seq<char>,
    url: Seq<char>,
    quote: Seq<char>,
)
    ensures
        !web.stamps.dom().contains(url) ==> exact_pin(web, archive_web, url, quote) == Err::<
            Option<Seq<char>>,
            RequestModel,
        >(RequestModel::Index(url)),
        web.stamps.dom().contains(url) && exact_pin(web, archive_web, url, quote) is Ok ==> {
            let stamps = web.stamps[url];
            match exact_pin(web, archive_web, url, quote)->Ok_0 {
                Some(pin) => exists|i: int|
                    0 <= i < 6 && i < stamps.len() && pin == archive_web + "/"@
                        + #[trigger] stamps[i] + "/"@ + url && carries_exactly(web, pin, quote),
                None => forall|i: int|
                    0 <= i < 6 && i < stamps.len() ==> !carries_exactly(
                        web,
                        archive_web + "/"@ + #[trigger] stamps[i] + "/"@ + url,
                        quote,
                    ),
            }
        },
{
    if web.stamps.dom().contains(url) {
        let stamps = web.stamps[url];
        let few = at_most(stamps, PIN_CANDIDATES as nat);
        let pins = pin_urls(archive_web, few, url);
        the_first_exact_snapshot_is_taken(web, pins, quote, 0);
        assert forall|i: int| 0 <= i < few.len() implies few[i] == #[trigger] stamps[i] && pins[i]
            == archive_web + "/"@ + stamps[i] + "/"@ + url && i < 6 by {}
        let r = exact_pin(web, archive_web, url, quote);
        if r is Ok && r->Ok_0 is None {
            assert forall|i: int| 0 <= i < 6 && i < stamps.len() implies !carries_exactly(
                web,
                archive_web + "/"@ + #[trigger] stamps[i] + "/"@ + url,
                quote,
            ) by {
                assert(i < few.len());
                assert(!carries_exactly(web, pins[i], quote));
            }
        }
        if r is Ok && r->Ok_0 is Some {
            let pin = r->Ok_0->Some_0;
            let i = choose|i: int| 0 <= i < pins.len() && #[trigger] pins[i] == pin;
            assert(few[i] == stamps[i]);
            assert(pin == archive_web + "/"@ + stamps[i] + "/"@ + url);
        }
    }
}

/// What a search for changed passages has come to.
pub open spec fn drift_so_far(
    web: WebModel,
    own: Seq<Seq<char>>,
    archives: Seq<Seq<char>>,
    quotes: Seq<Seq<char>>,
    n: nat,
    d: Drift,
) -> bool {
    // A pin carries its quote word for word.
    &&& forall|k: int|
        0 <= k < d.pinned.len() ==> carries_exactly(web, (#[trigger] d.pinned[k]).1, d.pinned[k].0)
    // A pin found now is none of the line's own, and one of the page's.
    &&& forall|k: int| 0 <= k < d.fresh.len() ==> d.archives.contains(#[trigger] d.fresh[k])
    &&& forall|pin: Seq<char>| #[trigger]
        d.archives.contains(pin) <==> archives.contains(pin) || d.fresh.contains(pin)
    // The pin found last is shown with its quote.
    &&& d.fresh.len() > 0 ==> d.pinned.contains((d.anchored, d.fresh.last()))
    // Each quote has a pin, or no pin of the line carries it.
    &&& forall|i: int|
        0 <= i < n && i < quotes.len() ==> pin_of(d.pinned, #[trigger] quotes[i]) is Some || (
        d.adrift is Some && forall|k: int|
            0 <= k < own.len() ==> !carries_exactly(web, #[trigger] own[k], quotes[i]))
    // The quote shown without a pin is one that has none.
    &&& d.adrift matches Some(quote) ==> forall|k: int|
        0 <= k < own.len() ==> !carries_exactly(web, #[trigger] own[k], quote)
}

proof fn lemma_pin_of(pinned: Seq<(Seq<char>, Seq<char>)>, quote: Seq<char>)
    ensures
        pin_of(pinned, quote) is Some <==> exists|k: int|
            0 <= k < pinned.len() && (#[trigger] pinned[k]).0 == quote,
        pin_of(pinned, quote) matches Some(pin) ==> exists|k: int|
            0 <= k < pinned.len() && #[trigger] pinned[k] == (quote, pin) && forall|j: int|
                0 <= j < k ==> (#[trigger] pinned[j]).0 != quote,
    decreases pinned.len(),
{
    if pinned.len() > 0 {
        let front = pinned.drop_last();
        lemma_pin_of(front, quote);
        let last = pinned.len() - 1;
        assert(pinned[last] == pinned.last());
        match pin_of(front, quote) {
            Some(pin) => {
                let k = choose|k: int|
                    0 <= k < front.len() && #[trigger] front[k] == (quote, pin) && forall|j: int|
                        0 <= j < k ==> (#[trigger] front[j]).0 != quote;
                assert(pinned[k] == (quote, pin));
                assert forall|j: int| 0 <= j < k implies (#[trigger] pinned[j]).0 != quote by {
                    assert(front[j] == pinned[j]);
                }
            },
            None => {
                assert forall|j: int| 0 <= j < last implies (#[trigger] pinned[j]).0 != quote by {
                    assert(front[j] == pinned[j]);
                }
                if pinned.last().0 == quote {
                    assert(pinned[last] == (quote, pinned.last().1));
                }
            },
        }
    }
}

/// The pin of a quote is the one that was given for it first, and a verdict
/// on a quote with a pin is that it is pinned there.
pub proof fn a_pinned_quote_goes_by_its_first_pin(
    verdicts: Seq<VerdictModel>,
    pinned: Seq<(Seq<char>, Seq<char>)>,
    i: int,
)
    requires
        0 <= i < verdicts.len(),
    ensures
        ({
            let v = pinned_verdicts(verdicts, pinned)[i];
            &&& pinned_verdicts(verdicts, pinned).len() == verdicts.len()
            &&& v.quote == verdicts[i].quote
            &&& (forall|k: int| 0 <= k < pinned.len() ==> (#[trigger] pinned[k]).0 != v.quote)
                ==> v == verdicts[i]
            &&& forall|k: int|
                0 <= k < pinned.len() && (#[trigger] pinned[k]).0 == v.quote && (forall|j: int|
                    0 <= j < k ==> (#[trigger] pinned[j]).0 != v.quote) ==> v.status
                    == StatusModel::Pinned(pinned[k].1)
        }),
{
    let quote = verdicts[i].quote;
    lemma_pin_of(pinned, quote);
    let v = pinned_verdicts(verdicts, pinned)[i];
    assert forall|k: int|
        0 <= k < pinned.len() && (#[trigger] pinned[k]).0 == v.quote && (forall|j: int|
            0 <= j < k ==> (#[trigger] pinned[j]).0 != v.quote) implies v.status
        == StatusModel::Pinned(pinned[k].1) by {
        let pin = pin_of(pinned, quote)->Some_0;
        let m = choose|m: int|
            0 <= m < pinned.len() && #[trigger] pinned[m] == (quote, pin) && forall|j: int|
                0 <= j < m ==> (#[trigger] pinned[j]).0 != quote;
        assert(m == k) by {
            if m < k {
                assert(pinned[m].0 != v.quote);
            }
            if k < m {
                assert(pinned[k].0 != quote);
            }
        }
    }
}

/// A search for changed passages: every pin it gives carries its quote word
/// for word; a pin that it found is added to the page's, which keep what they
/// held; a quote is left without a pin only if no pin of the line carries it
/// word for word; and a quote is shown as left without one just then.
pub proof fn changed_passages_get_exact_pins(
    web: WebModel,
    archive_web: Seq<char>,
    url: Seq<char>,
    own: Seq<Seq<char>>,
    archives: Seq<Seq<char>>,
    quotes: Seq<Seq<char>>,
    n: nat,
)
    requires
        n <= quotes.len(),
    ensures
        drift_all(web, archive_web, url, own, archives, quotes, n) matches Ok(d) ==> drift_so_far(
            web,
            own,
            archives,
            quotes,
            n,
            d,
        ),
    decreases n,
{
    if n > 0 {
        let before = drift_all(web, archive_web, url, own, archives, quotes, (n - 1) as nat);
        changed_passages_get_exact_pins(
            web,
            archive_web,
            url,
            own,
            archives,
            quotes,
            (n - 1) as nat,
        );
        if before is Ok {
            lemma_drift_step(
                web,
                archive_web,
                url,
                own,
                archives,
                quotes,
                (n - 1) as nat,
                before->Ok_0,
            );
        }
    }
}

proof fn lemma_pin_of_more(
    pinned: Seq<(Seq<char>, Seq<char>)>,
    x: (Seq<char>, Seq<char>),
    quote: Seq<char>,
)
    ensures
        pin_of(pinned, quote) is Some || x.0 == quote ==> pin_of(pinned.push(x), quote) is Some,
{
    assert(pinned.push(x).drop_last() =~= pinned);
}

proof fn lemma_drift_step(
    web: WebModel,
    archive_web: Seq<char>,
    url: Seq<char>,
    own: Seq<Seq<char>>,
    archives: Seq<Seq<char>>,
    quotes: Seq<Seq<char>>,
    n: nat,
    d: Drift,
)
    requires
        n < quotes.len(),
        drift_so_far(web, own, archives, quotes, n, d),
    ensures
        drift_step(web, archive_web, url, own, d, quotes[n as int]) matches Ok(e) ==> drift_so_far(
            web,
            own,
            archives,
            quotes,
            n + 1,
            e,
        ),
{
    let quote = quotes[n as int];
    let r = drift_step(web, archive_web, url, own, d, quote);
    if r is Ok {
        let e = r->Ok_0;
        the_first_exact_snapshot_is_taken(web, own, quote, 0);
        six_snapshots_are_tried_for_a_changed_passage(web, archive_web, url, quote);
        let mine = exact_from(web, own, quote, 0)->Ok_0;
        if mine is Some {
            lemma_pinned_more(web, own, archives, quotes, n, d, e, mine->Some_0);
        } else {
            let found = exact_pin(web, archive_web, url, quote)->Ok_0;
            if found is Some {
                let pin = found->Some_0;
                assert(carries_exactly(web, pin, quote));
                assert forall|p: Seq<char>| #[trigger] e.archives.contains(p) <==> archives.contains(
                    p,
                ) || e.fresh.contains(p) by {
                    lemma_push_new(d.archives, pin, p);
                    lemma_push_new(d.fresh, pin, p);
                }
                assert forall|k: int| 0 <= k < e.fresh.len() implies e.archives.contains(
                    #[trigger] e.fresh[k],
                ) by {
                    assert(e.fresh.contains(e.fresh[k]));
                }
                lemma_pinned_more(web, own, archives, quotes, n, d, e, pin);
                assert(e.fresh.len() > 0 ==> e.pinned.contains((e.anchored, e.fresh.last()))) by {
                    if d.fresh.contains(pin) {
                        let k = choose|k: int|
                            0 <= k < d.pinned.len() && #[trigger] d.pinned[k] == (
                                d.anchored,
                                d.fresh.last(),
                            );
                        assert(e.pinned[k] == d.pinned[k]);
                    } else {
                        assert(e.fresh.last() == pin);
                        assert(e.pinned.last() == (quote, pin));
                        assert(e.pinned[e.pinned.len() - 1] == (quote, pin));
                    }
                }
            } else {
                assert forall|i: int| 0 <= i < n + 1 && i < quotes.len() implies pin_of(
                    e.pinned,
                    #[trigger] quotes[i],
                ) is Some || (e.adrift is Some && forall|k: int|
                    0 <= k < own.len() ==> !carries_exactly(web, #[trigger] own[k], quotes[i])) by {
                    if i == n {
                        assert(quotes[i] == quote);
                    }
                }
            }
        }
    }
}

proof fn lemma_pinned_more(
    web: WebModel,
    own: Seq<Seq<char>>,
    archives: Seq<Seq<char>>,
    quotes: Seq<Seq<char>>,
    n: nat,
    d: Drift,
    e: Drift,
    pin: Seq<char>,
)
    requires
        n < quotes.len(),
        drift_so_far(web, own, archives, quotes, n, d),
        e.pinned == d.pinned.push((quotes[n as int], pin)),
        e.adrift == d.adrift,
        carries_exactly(web, pin, quotes[n as int]),
    ensures
        forall|k: int|
            0 <= k < e.pinned.len() ==> carries_exactly(
                web,
                (#[trigger] e.pinned[k]).1,
                e.pinned[k].0,
            ),
        forall|i: int|
            0 <= i < n + 1 && i < quotes.len() ==> pin_of(e.pinned, #[trigger] quotes[i]) is Some
                || (e.adrift is Some && forall|k: int|
                0 <= k < own.len() ==> !carries_exactly(web, #[trigger] own[k], quotes[i])),
        e.fresh == d.fresh && e.anchored == d.anchored && d.fresh.len() > 0 ==> e.pinned.contains(
            (e.anchored, e.fresh.last()),
        ),
{
    let quote = quotes[n as int];
    assert forall|k: int| 0 <= k < e.pinned.len() implies carries_exactly(
        web,
        (#[trigger] e.pinned[k]).1,
        e.pinned[k].0,
    ) by {
        if k < d.pinned.len() {
            assert(e.pinned[k] == d.pinned[k]);
        }
    }
    assert forall|i: int| 0 <= i < n + 1 && i < quotes.len() implies pin_of(
        e.pinned,
        #[trigger] quotes[i],
    ) is Some || (e.adrift is Some && forall|k: int|
        0 <= k < own.len() ==> !carries_exactly(web, #[trigger] own[k], quotes[i])) by {
        lemma_pin_of_more(d.pinned, (quote, pin), quotes[i]);
    }
    if d.fresh.len() > 0 {
        let k = choose|k: int|
            0 <= k < d.pinned.len() && #[trigger] d.pinned[k] == (d.anchored, d.fresh.last());
        assert(e.pinned[k] == d.pinned[k]);
    }
}

/// Changed passages are reported as warnings: one for the snapshots found
/// that carry them word for word, with the remedy to pin them and the pins to
/// write; one for a passage that none carries, with no remedy.
pub proof fn changed_passages_are_warned_of(
    t: TallyModel,
    term: Seq<char>,
    url: Seq<char>,
    d: Drift,
)
    ensures
        ({
            let listed = join(d.fresh, ", "@);
            &&& d.fresh.len() == 0 ==> report_fresh(t, term, url, d) == t
            &&& d.fresh.len() > 0 ==> report_fresh(t, term, url, d) == (TallyModel {
                archives: t.archives,
                quotes: t.quotes,
                findings: t.findings.push(
                    FindingModel {
                        class: "sources"@,
                        check: "quote_moved"@,
                        severity: "warning"@,
                        term,
                        message: "quoted passage on "@ + url
                            + " has changed but still matches; the snapshot "@ + listed
                            + " carries it verbatim: "@ + ("\u{201c}"@ + clipped(d.anchored)
                            + "\u{201d}"@),
                        fix: Some("pin the archived copy "@ + listed + " beside the link"@),
                        fixed: false,
                    },
                ),
                writes: t.writes.push(WriteModel { term, url, pins: d.fresh }),
            })
        }),
        d.adrift is None ==> report_adrift(t, term, url, d) == t,
        d.adrift matches Some(quote) ==> report_adrift(t, term, url, d) == (TallyModel {
            archives: t.archives,
            quotes: t.quotes,
            findings: t.findings.push(
                FindingModel {
                    class: "sources"@,
                    check: "quote_moved"@,
                    severity: "warning"@,
                    term,
                    message: "quoted passage on "@ + url
                        + " has changed but still matches, and no snapshot carries it verbatim: "@
                        + ("\u{201c}"@ + clipped(quote) + "\u{201d}"@),
                    fix: None,
                    fixed: false,
                },
            ),
            writes: t.writes,
        }),
{
}

// ---------------------------------------------------------------------------
// Hosts that cannot be reached
// ---------------------------------------------------------------------------

/// The copy that is offered is the first of the page's that can be read and
/// does not stand on the line; none is offered only where there is none.
pub proof fn the_first_readable_copy_is_offered(
    web: WebModel,
    archives: Seq<Seq<char>>,
    own: Seq<Seq<char>>,
    k: nat,
)
    ensures
        offer_from(web, archives, own, k) matches Ok(Some(pin)) ==> exists|i: int|
            k <= i < archives.len() && #[trigger] archives[i] == pin && !own.contains(pin) && (
            page_at(web, pin) matches Ok(Some(_))) && (forall|j: int|
                k <= j < i ==> own.contains(#[trigger] archives[j]) || page_at(web, archives[j])
                    == Ok::<Option<Seq<char>>, RequestModel>(None)),
        offer_from(web, archives, own, k) matches Ok(None) ==> forall|i: int|
            k <= i < archives.len() ==> own.contains(#[trigger] archives[i]) || page_at(
                web,
                archives[i],
            ) == Ok::<Option<Seq<char>>, RequestModel>(None),
    decreases archives.len() - k,
{
    if k < archives.len() {
        let here = archives[k as int];
        the_first_readable_copy_is_offered(web, archives, own, k + 1);
        if !own.contains(here) && page_at(web, here) is Ok && page_at(web, here)->Ok_0 is Some {
            assert(archives[k as int] == here);
        } else if own.contains(here) || page_at(web, here) is Ok {
            let r = offer_from(web, archives, own, k + 1);
            assert(offer_from(web, archives, own, k) == r);
            if r is Ok && r->Ok_0 is Some {
                let pin = r->Ok_0->Some_0;
                let i = choose|i: int|
                    k + 1 <= i < archives.len() && #[trigger] archives[i] == pin && !own.contains(
                        pin,
                    ) && (page_at(web, pin) matches Ok(Some(_))) && (forall|j: int|
                        k + 1 <= j < i ==> own.contains(#[trigger] archives[j]) || page_at(
                            web,
                            archives[j],
                        ) == Ok::<Option<Seq<char>>, RequestModel>(None));
                assert forall|j: int| k <= j < i implies own.contains(#[trigger] archives[j])
                    || page_at(web, archives[j]) == Ok::<Option<Seq<char>>, RequestModel>(None) by {}
                assert(k <= i && archives[i] == pin);
            }
        }
    }
}

/// A term whose source cannot be reached: nothing is reported where one of
/// its own pins can be read; else one warning that names the host and why it
/// failed, with the copy that is offered to be pinned, if there is one.
pub proof fn an_unreachable_host_is_warned_of(
    all: Seq<TermModel>,
    web: WebModel,
    url: Seq<char>,
    site: Seq<char>,
    reason: Seq<char>,
    t: TallyModel,
    term: Seq<char>,
)
    ensures
        unreachable_term(all, web, url, site, reason, t, term) matches Ok(u) ==> {
            let own = own_pins(all, term, url);
            ||| u == t && exists|k: int|
                0 <= k < own.len() && page_at(web, #[trigger] own[k]) matches Ok(Some(_))
            ||| {
                &&& forall|k: int|
                    0 <= k < own.len() ==> page_at(web, #[trigger] own[k]) == Ok::<
                        Option<Seq<char>>,
                        RequestModel,
                    >(None)
                &&& u.archives == t.archives && u.quotes == t.quotes
                &&& u.findings.len() == t.findings.len() + 1
                &&& u.findings.drop_last() == t.findings
                &&& ({
                    let f = u.findings.last();
                    &&& f.class == "sources"@ && f.check == "unreachable_host"@ && f.severity
                        == "warning"@ && f.term == term && !f.fixed
                    &&& f.fix is None ==> u.writes == t.writes && f.message == "host "@ + site
                        + " is unreachable ("@ + reason + "); its sources were skipped"@ && forall|
                        k: int,
                    |
                        0 <= k < t.archives.len() ==> own.contains(#[trigger] t.archives[k])
                            || page_at(web, t.archives[k]) == Ok::<Option<Seq<char>>, RequestModel>(
                            None,
                        )
                    &&& f.fix is Some ==> exists|k: int|
                        0 <= k < t.archives.len() && !own.contains(#[trigger] t.archives[k]) && (
                        page_at(web, t.archives[k]) matches Ok(Some(_))) && u.writes
                            == t.writes.push(
                            WriteModel { term, url, pins: seq![t.archives[k]] },
                        ) && f.message == "host "@ + site + " is unreachable ("@ + reason
                            + "); the archived copy "@ + t.archives[k]
                            + " still carries this source"@ && f.fix == Some(
                            "pin the archived copy "@ + t.archives[k] + " beside the link"@,
                        )
                })
            }
        },
{
    let own = own_pins(all, term, url);
    let none = Seq::<Seq<char>>::empty();
    the_first_readable_copy_is_offered(web, own, none, 0);
    the_first_readable_copy_is_offered(web, t.archives, own, 0);
    let r = unreachable_term(all, web, url, site, reason, t, term);
    if r is Ok {
        let u = r->Ok_0;
        let mine = offer_from(web, own, none, 0)->Ok_0;
        if mine is None {
            assert(u.findings.drop_last() =~= t.findings);
            assert forall|k: int| 0 <= k < own.len() implies page_at(web, #[trigger] own[k]) == Ok::<
                Option<Seq<char>>,
                RequestModel,
            >(None) by {
                assert(!none.contains(own[k]));
            }
        } else {
            let k = choose|k: int| 0 <= k < own.len() && #[trigger] own[k] == mine->Some_0;
            assert(page_at(web, own[k]) matches Ok(Some(_)));
        }
    }
}

// ---------------------------------------------------------------------------
// The entry of a page
// ---------------------------------------------------------------------------

/// What is known of a page: that its host has failed, what was fetched, or
/// that it has to be fetched.
pub proof fn a_page_is_fetched_unless_its_host_failed(
    web: WebModel,
    url: Seq<char>,
    site: Seq<char>,
    down: Map<Seq<char>, Seq<char>>,
)
    ensures
        live_at(web, url, site, down) is Err <==> !down.dom().contains(site)
            && !web.live.dom().contains(url),
        live_at(web, url, site, down) matches Err(request) ==> request == RequestModel::Page(url),
        down.dom().contains(site) ==> live_at(web, url, site, down) == Ok::<
            LiveModel,
            RequestModel,
        >(LiveModel::Unreachable(down[site])),
        !down.dom().contains(site) && web.live.dom().contains(url) ==> live_at(
            web,
            url,
            site,
            down,
        ) == Ok::<LiveModel, RequestModel>(web.live[url]),
{
}

/// A page that does not answer gets a first copy from the archive, if the
/// archive names one; a page that has copies keeps them and asks nothing.
pub proof fn a_copy_is_looked_up_only_where_there_is_none(
    web: WebModel,
    url: Seq<char>,
    archives: Seq<Seq<char>>,
)
    ensures
        archives.len() > 0 ==> looked_up(web, url, archives) == Ok::<
            Seq<Seq<char>>,
            RequestModel,
        >(archives),
        archives.len() == 0 && !web.lookups.dom().contains(url) ==> looked_up(web, url, archives)
            == Err::<Seq<Seq<char>>, RequestModel>(RequestModel::Lookup(url)),
        archives.len() == 0 && web.lookups.dom().contains(url) ==> match web.lookups[url] {
            Some(copy) => looked_up(web, url, archives) == Ok::<Seq<Seq<char>>, RequestModel>(
                seq![copy],
            ),
            None => looked_up(web, url, archives) == Ok::<Seq<Seq<char>>, RequestModel>(
                Seq::empty(),
            ),
        },
{
    if archives.len() == 0 {
        assert(archives =~= Seq::empty());
    }
}

/// The terms that come before the `n`-th have their word.
proof fn lemma_words(
    all: Seq<TermModel>,
    web: WebModel,
    archive_web: Seq<char>,
    url: Seq<char>,
    page: Seq<char>,
    t: TallyModel,
    terms: Seq<Seq<char>>,
    n: nat,
)
    requires
        n <= terms.len(),
    ensures
        live_terms(all, web, archive_web, url, page, t, terms, n) matches Ok(u) ==> forall|
            term: Seq<char>,
        | #[trigger]
            u.quotes.dom().contains(term) <==> t.quotes.dom().contains(term) || terms.take(
                n as int,
            ).contains(term),
    decreases n,
{
    if n > 0 {
        lemma_words(all, web, archive_web, url, page, t, terms, (n - 1) as nat);
        let before = live_terms(all, web, archive_web, url, page, t, terms, (n - 1) as nat);
        let r = live_terms(all, web, archive_web, url, page, t, terms, n);
        if r is Ok {
            let u = r->Ok_0;
            let list = terms.take(n as int);
            assert(list.drop_last() =~= terms.take(n - 1));
            assert(u.quotes.dom() =~= before->Ok_0.quotes.dom().insert(terms[n - 1]));
            assert forall|term: Seq<char>| #[trigger]
                u.quotes.dom().contains(term) <==> t.quotes.dom().contains(term) || list.contains(
                    term,
                ) by {
                lemma_contains_last(list, term);
            }
        }
    } else {
        assert(terms.take(0) =~= Seq::empty());
    }
}

/// A page that answers is recorded with the time, its status and the digest
/// of its body, and has a word on the quotes of each term that cites it; who
/// cites it and which hosts failed stays.
pub proof fn a_page_that_answers_is_recorded(
    all: Seq<TermModel>,
    web: WebModel,
    archive_web: Seq<char>,
    now: Seq<char>,
    url: Seq<char>,
    entry: EntryModel,
    down: Map<Seq<char>, Seq<char>>,
)
    requires
        host(url) is Some,
        !down.dom().contains(host(url)->Some_0),
        web.live.dom().contains(url),
        web.live[url] is Page,
    ensures
        entry_step(all, web, archive_web, now, url, entry, down) matches Ok(o) ==> {
            &&& o.entry.cited_by == entry.cited_by
            &&& o.entry.fetched_at == Some(now)
            &&& web.live[url] matches LiveModel::Page { status, digest, page } && o.entry.status
                == Some(status) && o.entry.content_sha256 == Some(digest)
            &&& forall|term: Seq<char>| #[trigger]
                o.entry.quotes.dom().contains(term) <==> entry.quotes.dom().contains(term)
                    || entry.cited_by.contains(term)
            &&& o.down == down
        },
{
    let page = web.live[url]->page;
    lemma_words(
        all,
        web,
        archive_web,
        url,
        page,
        fresh_tally(entry, entry.archives),
        entry.cited_by,
        entry.cited_by.len(),
    );
    assert(entry.cited_by.take(entry.cited_by.len() as int) =~= entry.cited_by);
}

/// A page that answers with an error is recorded with the time and its
/// status, and keeps its digest and what is known of its quotes; each term
/// that cites it is told the status, and to replace the link by the page's
/// first copy if there is one.
pub proof fn a_page_that_fails_is_recorded(
    all: Seq<TermModel>,
    web: WebModel,
    archive_web: Seq<char>,
    now: Seq<char>,
    url: Seq<char>,
    entry: EntryModel,
    down: Map<Seq<char>, Seq<char>>,
    status: u16,
    i: int,
)
    requires
        host(url) is Some,
        !down.dom().contains(host(url)->Some_0),
        web.live.dom().contains(url),
        web.live[url] == LiveModel::Dead(status),
        0 <= i < entry.cited_by.len(),
    ensures
        entry_step(all, web, archive_web, now, url, entry, down) matches Ok(o) ==> {
            &&& o.entry.cited_by == entry.cited_by
            &&& o.entry.fetched_at == Some(now)
            &&& o.entry.status == Some(status)
            &&& o.entry.content_sha256 == entry.content_sha256
            &&& o.entry.quotes == entry.quotes
            &&& o.down == down
            &&& o.findings.len() == entry.cited_by.len()
            &&& o.findings[i] == (FindingModel {
                class: "sources"@,
                check: "dead_link"@,
                severity: "error"@,
                term: entry.cited_by[i],
                message: "source "@ + url + " returned HTTP "@ + decimal(status as nat),
                fix: if o.entry.archives.len() > 0 {
                    Some("replace the link with the archived copy "@ + o.entry.archives[0])
                } else {
                    None
                },
                fixed: false,
            })
        },
{
}

/// A URL without a host is left alone: nothing is asked, nothing is reported
/// and its entry stays.
pub proof fn a_url_without_a_host_is_left_alone(
    all: Seq<TermModel>,
    web: WebModel,
    archive_web: Seq<char>,
    now: Seq<char>,
    url: Seq<char>,
    entry: EntryModel,
    down: Map<Seq<char>, Seq<char>>,
)
    requires
        host(url) is None,
    ensures
        entry_step(all, web, archive_web, now, url, entry, down) matches Ok(o) && o.entry == entry
            && o.findings.len() == 0 && o.writes.len() == 0 && o.down == down,
{
}

/// A page is done once and for all: its entry alone changes in the lock, what
/// it reports is added behind what was reported, and the next page follows.
pub proof fn a_page_changes_its_own_entry(p: PassModel, o: OutcomeModel, url: Seq<char>)
    requires
        p.next < p.keys.len(),
    ensures
        ({
            let q = applied(p, o);
            &&& q.keys == p.keys && q.next == p.next + 1
            &&& q.lock.dom().contains(p.keys[p.next as int]) && q.lock[p.keys[p.next as int]]
                == o.entry
            &&& url != p.keys[p.next as int] ==> (q.lock.dom().contains(url)
                <==> p.lock.dom().contains(url)) && (p.lock.dom().contains(url) ==> q.lock[url]
                == p.lock[url])
            &&& q.findings.len() == p.findings.len() + o.findings.len()
            &&& forall|i: int| 0 <= i < p.findings.len() ==> q.findings[i] == p.findings[i]
            &&& forall|i: int|
                0 <= i < o.findings.len() ==> q.findings[p.findings.len() + i]
                    == #[trigger] o.findings[i]
            &&& q.writes.len() == p.writes.len() + o.writes.len()
            &&& forall|i: int| 0 <= i < p.writes.len() ==> q.writes[i] == p.writes[i]
            &&& forall|i: int|
                0 <= i < o.writes.len() ==> q.writes[p.writes.len() + i] == #[trigger] o.writes[i]
            &&& q.down == o.down
        }),
{
}

// ---------------------------------------------------------------------------
// Pins and snapshots
// ---------------------------------------------------------------------------

/// The pins of a term's own are those that stand beside its anchors of the
/// page, and no others.
pub proof fn own_pins_stand_beside_the_page(
    all: Seq<TermModel>,
    term: Seq<char>,
    url: Seq<char>,
    pin: Seq<char>,
)
    ensures
        own_pins(all, term, url).contains(pin) <==> exists|i: int, k: int|
            0 <= i < all.len() && all[i].term == term && 0 <= k < all[i].sources.len()
                && #[trigger] all[i].sources[k].url == url && all[i].sources[k].archives.contains(
                pin,
            ),
    decreases all.len(),
{
    if all.len() > 0 {
        let front = all.drop_last();
        let last = all.last();
        own_pins_stand_beside_the_page(front, term, url, pin);
        lemma_add_pins(own_pins(front, term, url), last.sources, url, pin);
        assert(all[all.len() - 1] == last);
        if own_pins(front, term, url).contains(pin) {
            let (i, k) = choose|i: int, k: int|
                0 <= i < front.len() && front[i].term == term && 0 <= k < front[i].sources.len()
                    && #[trigger] front[i].sources[k].url == url
                    && front[i].sources[k].archives.contains(pin);
            assert(all[i].sources[k].url == url);
        } else if own_pins(all, term, url).contains(pin) {
            let k = choose|k: int|
                0 <= k < last.sources.len() && (#[trigger] last.sources[k]).url == url
                    && last.sources[k].archives.contains(pin);
            assert(all[all.len() - 1].sources[k].url == url);
        }
        if exists|i: int, k: int|
            0 <= i < all.len() && all[i].term == term && 0 <= k < all[i].sources.len()
                && #[trigger] all[i].sources[k].url == url && all[i].sources[k].archives.contains(
                pin,
            ) {
            let (i, k) = choose|i: int, k: int|
                0 <= i < all.len() && all[i].term == term && 0 <= k < all[i].sources.len()
                    && #[trigger] all[i].sources[k].url == url
                    && all[i].sources[k].archives.contains(pin);
            if i < front.len() {
                assert(front[i].sources[k].url == url);
            } else {
                assert(last.sources[k].url == url);
            }
        }
    }
}

proof fn lemma_add_pins(
    list: Seq<Seq<char>>,
    refs: Seq<SourceModel>,
    url: Seq<char>,
    pin: Seq<char>,
)
    ensures
        add_pins(list, refs, url).contains(pin) <==> list.contains(pin) || exists|k: int|
            0 <= k < refs.len() && (#[trigger] refs[k]).url == url && refs[k].archives.contains(pin),
    decreases refs.len(),
{
    if refs.len() > 0 {
        let front = refs.drop_last();
        let last = refs.last();
        lemma_add_pins(list, front, url, pin);
        assert(refs[refs.len() - 1] == last);
        lemma_append_new(add_pins(list, front, url), last.archives);
        assert(append_new(add_pins(list, front, url), last.archives).contains(pin) <==> add_pins(
            list,
            front,
            url,
        ).contains(pin) || last.archives.contains(pin));
        if exists|k: int|
            0 <= k < front.len() && (#[trigger] front[k]).url == url && front[k].archives.contains(
                pin,
            ) {
            let k = choose|k: int|
                0 <= k < front.len() && (#[trigger] front[k]).url == url
                    && front[k].archives.contains(pin);
            assert(refs[k] == front[k]);
        }
        if exists|k: int|
            0 <= k < refs.len() && (#[trigger] refs[k]).url == url && refs[k].archives.contains(
                pin,
            ) {
            let k = choose|k: int|
                0 <= k < refs.len() && (#[trigger] refs[k]).url == url && refs[k].archives.contains(
                    pin,
                );
            if k < front.len() {
                assert(front[k] == refs[k]);
            }
        }
    }
}

/// The pins that are read for a term: its own in their order, then those of
/// the page that are not its own.
pub proof fn own_pins_are_read_first(own: Seq<Seq<char>>, archives: Seq<Seq<char>>)
    ensures
        known_pins(own, archives).len() >= own.len(),
        known_pins(own, archives).take(own.len() as int) == own,
        forall|pin: Seq<char>| #[trigger]
            known_pins(own, archives).contains(pin) <==> own.contains(pin) || archives.contains(
                pin,
            ),
        forall|i: int|
            own.len() <= i < known_pins(own, archives).len() ==> !own.contains(
                #[trigger] known_pins(own, archives)[i],
            ),
{
    lemma_others(own, archives);
    let known = known_pins(own, archives);
    let rest = others(own, archives);
    assert(known.take(own.len() as int) =~= own);
    assert forall|pin: Seq<char>| #[trigger] known.contains(pin) <==> own.contains(pin)
        || archives.contains(pin) by {
        if known.contains(pin) {
            let i = choose|i: int| 0 <= i < known.len() && known[i] == pin;
            if i < own.len() {
                assert(own[i] == pin);
            } else {
                assert(rest[i - own.len()] == pin);
                assert(rest.contains(pin));
            }
        }
        if own.contains(pin) {
            let i = choose|i: int| 0 <= i < own.len() && own[i] == pin;
            assert(known[i] == pin);
        } else if archives.contains(pin) {
            assert(rest.contains(pin));
            let i = choose|i: int| 0 <= i < rest.len() && rest[i] == pin;
            assert(known[own.len() + i] == pin);
        }
    }
    assert forall|i: int| own.len() <= i < known.len() implies !own.contains(
        #[trigger] known[i],
    ) by {
        assert(rest.contains(rest[i - own.len()]));
    }
}

proof fn lemma_others(own: Seq<Seq<char>>, archives: Seq<Seq<char>>)
    ensures
        forall|pin: Seq<char>| #[trigger]
            others(own, archives).contains(pin) <==> archives.contains(pin) && !own.contains(pin),
    decreases archives.len(),
{
    if archives.len() > 0 {
        let front = archives.drop_last();
        lemma_others(own, front);
        let list = others(own, archives);
        assert forall|pin: Seq<char>| #[trigger] list.contains(pin) <==> archives.contains(pin)
            && !own.contains(pin) by {
            lemma_contains_last(archives, pin);
            assert(others(own, front).contains(pin) <==> front.contains(pin) && !own.contains(pin));
            if !own.contains(archives.last()) {
                assert(list.drop_last() =~= others(own, front));
                lemma_contains_last(list, pin);
            }
        }
    }
}

/// A snapshot is read in its raw form: a URL that asks for it stays, and
/// another gets `id_` behind the time of its first match.
pub proof fn a_snapshot_is_read_in_its_raw_form(pin: Seq<char>)
    ensures
        has(pin, "id_/"@) ==> raw_url(pin) == pin,
        !(has(pin, "id_/"@)) ==> {
            let found = regex_matches(r"(/\d{4,14})/(https?://)"@, pin).0;
            &&& found.len() == 0 ==> raw_url(pin) == pin
            &&& found.len() > 0 && pin == found[0].before + group(found[0], 0) + pin.skip(
                (found[0].before.len() + group(found[0], 0).len()) as int,
            ) ==> raw_url(pin) == found[0].before + group(found[0], 1) + "id_/"@ + group(
                found[0],
                2,
            ) + pin.skip((found[0].before.len() + group(found[0], 0).len()) as int)
        },
{
}

/// A snapshot that was fetched is known by its raw URL, and one that was not
/// is asked for by it.
pub proof fn a_snapshot_is_asked_for_once(web: WebModel, pin: Seq<char>)
    ensures
        page_at(web, pin) is Err <==> !web.pages.dom().contains(raw_url(pin)),
        page_at(web, pin) matches Err(request) ==> request == RequestModel::Snapshot(raw_url(pin)),
        web.pages.dom().contains(raw_url(pin)) ==> {
            &&& page_at(web, pin) == Ok::<Option<Seq<char>>, RequestModel>(
                web.pages[raw_url(pin)].page,
            )
            &&& pin_failure(web, pin) == web.pages[raw_url(pin)].failure
        },
        !web.pages.dom().contains(raw_url(pin)) ==> pin_failure(web, pin) is None,
{
}

/// The date of a snapshot: the first eight digits of the time in its URL, as
/// year, month and day.
pub proof fn a_snapshot_has_the_date_of_its_url(pin: Seq<char>, y: Seq<char>, m: Seq<char>, d: Seq<char>)
    requires
        y.len() == 4,
        m.len() == 2,
        d.len() == 2,
    ensures
        ({
            let found = regex_matches(r"/(\d{8})\d{0,6}(?:id_)?/https?://"@, pin).0;
            &&& found.len() == 0 ==> date_in_url(pin) is None
            &&& found.len() > 0 && group(found[0], 1) == y + m + d ==> date_in_url(pin) == Some(
                y + "-"@ + m + "-"@ + d,
            )
        }),
{
    let g = y + m + d;
    assert(g.subrange(0, 4) =~= y);
    assert(g.subrange(4, 6) =~= m);
    assert(g.subrange(6, 8) =~= d);
}

/// The first six of a list are tried first; a shorter list is tried whole.
pub proof fn six_snapshots_are_nearest(list: Seq<Seq<char>>)
    ensures
        list.len() <= 6 ==> window_of(list) == list,
        list.len() > 6 ==> window_of(list) == list.take(6),
        PIN_FETCH_BUDGET == 20,
{
    if list.len() == 6 {
        assert(list.take(6) =~= list);
    }
}

/// What a page does not carry: the quotes that are missing from it, in their
/// order.
pub proof fn a_page_lacks_what_is_missing_from_it(page: Seq<char>, quotes: Seq<Seq<char>>)
    ensures
        uncovered(page, quotes) == quotes.filter(
            |quote: Seq<char>| standing(page, quote) == Standing::Missing,
        ),
    decreases quotes.len(),
{
    reveal(Seq::filter);
    if quotes.len() > 0 {
        a_page_lacks_what_is_missing_from_it(page, quotes.drop_last());
    }
}

// ---------------------------------------------------------------------------
// The order of snapshots
// ---------------------------------------------------------------------------

/// The times of an index are those in the second column of its rows behind
/// the heading that begin with a day of eight characters.
pub proof fn an_index_lists_times_in_its_second_column(
    rows: Seq<Seq<Seq<char>>>,
    n: nat,
    ts: Seq<char>,
)
    requires
        n <= rows.len(),
    ensures
        row_stamps(rows, n).contains(ts) <==> ts.len() >= 8 && integer_value(ts.take(8)) is Some
            && exists|r: int|
            1 <= r < n && (#[trigger] rows[r]).len() > 1 && rows[r][1] == ts,
    decreases n,
{
    if n > 1 {
        an_index_lists_times_in_its_second_column(rows, (n - 1) as nat, ts);
        let list = row_stamps(rows, n);
        let front = row_stamps(rows, (n - 1) as nat);
        let row = rows[n - 1];
        if row.len() > 1 && stamp_day(row[1]) is Some {
            assert(list.drop_last() =~= front);
            lemma_contains_last(list, ts);
        }
        if front.contains(ts) {
            let r = choose|r: int|
                1 <= r < n - 1 && (#[trigger] rows[r]).len() > 1 && rows[r][1] == ts;
            assert(1 <= r < n && rows[r][1] == ts);
        }
    }
}

/// How far a day `YYYYMMDD` is from the first of January of its year.
pub open spec fn from_new_year(day: int) -> int {
    let new_year = day / 10_000 * 10_000 + 101;
    if day < new_year {
        new_year - day
    } else {
        day - new_year
    }
}

/// The time that is tried for a year is one of the list, of that year, and no
/// other of the year is nearer to the first of January; a year without a time
/// has none.
pub proof fn a_year_is_tried_at_its_beginning(list: Seq<Seq<char>>, year: int)
    requires
        forall|i: int|
            0 <= i < list.len() ==> (stamp_day(#[trigger] list[i]) matches Some(day) && day >= 0),
    ensures
        pick_of_year(list, year) is None ==> forall|i: int|
            0 <= i < list.len() ==> stamp_day(#[trigger] list[i])->Some_0 / 10_000 != year,
        pick_of_year(list, year) matches Some(ts) ==> list.contains(ts) && stamp_day(ts)->Some_0
            / 10_000 == year && forall|i: int|
            0 <= i < list.len() && stamp_day(#[trigger] list[i])->Some_0 / 10_000 == year
                ==> from_new_year(stamp_day(ts)->Some_0) <= from_new_year(
                stamp_day(list[i])->Some_0,
            ),
    decreases list.len(),
{
    if list.len() > 0 {
        let front = list.drop_last();
        let last = list.last();
        assert(list[list.len() - 1] == last);
        assert forall|i: int| 0 <= i < front.len() implies (stamp_day(#[trigger] front[i]) matches
            Some(day) && day >= 0) by {
            assert(front[i] == list[i]);
        }
        a_year_is_tried_at_its_beginning(front, year);
        let best = pick_of_year(front, year);
        assert forall|i: int| 0 <= i < front.len() implies #[trigger] list[i] == front[i] by {}
        let day = stamp_day(last)->Some_0;
        assert(day >= 0);
        assert(from_start(last) == from_new_year(day));
        if best is Some {
            let b = best->Some_0;
            let k = choose|k: int| 0 <= k < front.len() && front[k] == b;
            assert(list[k] == b);
            assert(stamp_day(front[k]) matches Some(d) && d >= 0);
            assert(from_start(b) == from_new_year(stamp_day(b)->Some_0));
        }
        assert(list.contains(last));
    }
}

/// One time is tried before another if its day is nearer to the chosen day;
/// of two as near, the one whose text comes first.
pub proof fn nearer_days_are_tried_first(a: Seq<char>, b: Seq<char>, x: int, y: int, around: int)
    requires
        stamp_day(a) == Some(x),
        stamp_day(b) == Some(y),
    ensures
        ({
            let p = if x < around {
                around - x
            } else {
                x - around
            };
            let q = if y < around {
                around - y
            } else {
                y - around
            };
            &&& p < q ==> nearer(a, b, around)
            &&& p > q ==> !nearer(a, b, around)
            &&& p == q ==> (nearer(a, b, around) <==> before(a, b))
        }),
{
}

/// A byte stands for itself in a URL if it is a letter, a digit, a hyphen, an
/// underscore, a dot or a tilde; any other is a percent sign and its two
/// hexadecimal digits in upper case.
pub proof fn other_bytes_are_percent_encoded(b: u8)
    ensures
        ({
            let c = b as char;
            let plain = ('A' <= c && c <= 'Z') || ('a' <= c && c <= 'z') || ('0' <= c && c <= '9')
                || c == '-' || c == '_' || c == '.' || c == '~';
            let e = encoded_byte(b);
            &&& plain ==> e == seq![c]
            &&& !plain ==> e.len() == 3 && e[0] == '%' && upper_value(e[1]) == b as int / 16
                && upper_value(e[2]) == b as int % 16
        }),
{
    assert(0 <= b as int / 16 < 16);
    assert(0 <= b as int % 16 < 16);
}

/// The value of a hexadecimal digit in upper case; none for another character.
pub open spec fn upper_value(c: char) -> int {
    if '0' <= c && c <= '9' {
        c as int - '0' as int
    } else if 'A' <= c && c <= 'F' {
        c as int - 'A' as int + 10
    } else {
        -1
    }
}

/// The bytes of a text are encoded one after the other.
pub proof fn bytes_are_encoded_in_turn(bytes: Seq<u8>, b: u8, s: Seq<char>)
    ensures
        encoded(Seq::empty()) == Seq::<char>::empty(),
        encoded(bytes.push(b)) == encoded(bytes) + encoded_byte(b),
        percent_encoded(s) == encoded(encode_utf8(s)),
{
    assert(bytes.push(b).drop_last() =~= bytes);
}

/// One year is tried before another if it is nearer to the chosen one; of two
/// as near, the earlier.
pub open spec fn year_comes_first(a: int, b: int, around: int) -> bool {
    let p = if a < around {
        around - a
    } else {
        a - around
    };
    let q = if b < around {
        around - b
    } else {
        b - around
    };
    p < q || (p == q && a < b)
}

/// The years stand in the order in which they are tried.
spec fn years_ordered(list: Seq<int>, around: int) -> bool {
    forall|i: int, j: int|
        0 <= i < j < list.len() ==> year_comes_first(#[trigger] list[i], #[trigger] list[j], around)
}

proof fn lemma_year_inserted(list: Seq<int>, y: int, around: int)
    requires
        years_ordered(list, around),
        !list.contains(y),
    ensures
        years_ordered(insert_year(list, y, around), around),
        forall|z: int| #[trigger]
            insert_year(list, y, around).contains(z) <==> list.contains(z) || z == y,
    decreases list.len(),
{
    let r = insert_year(list, y, around);
    if list.len() > 0 && year_before(y, list.last(), around) {
        let front = list.drop_last();
        assert forall|i: int, j: int| 0 <= i < j < front.len() implies year_comes_first(
            #[trigger] front[i],
            #[trigger] front[j],
            around,
        ) by {
            assert(front[i] == list[i] && front[j] == list[j]);
        }
        assert(!front.contains(y)) by {
            lemma_contains_last(list, y);
        }
        lemma_year_inserted(front, y, around);
        let inner = insert_year(front, y, around);
        assert(r.drop_last() =~= inner);
        assert forall|z: int| #[trigger] r.contains(z) <==> list.contains(z) || z == y by {
            lemma_contains_last(list, z);
            lemma_contains_last(r, z);
        }
        assert forall|i: int, j: int| 0 <= i < j < r.len() implies year_comes_first(
            #[trigger] r[i],
            #[trigger] r[j],
            around,
        ) by {
            assert(r[i] == inner[i]);
            if j < inner.len() {
                assert(r[j] == inner[j]);
            } else {
                assert(inner.contains(inner[i]));
                if inner[i] != y {
                    let k = choose|k: int| 0 <= k < front.len() && front[k] == inner[i];
                    assert(list[k] == inner[i]);
                    assert(year_comes_first(list[k], list[list.len() - 1], around));
                }
            }
        }
    } else {
        assert(r.drop_last() =~= list);
        assert forall|z: int| #[trigger] r.contains(z) <==> list.contains(z) || z == y by {
            lemma_contains_last(r, z);
        }
        assert forall|i: int, j: int| 0 <= i < j < r.len() implies year_comes_first(
            #[trigger] r[i],
            #[trigger] r[j],
            around,
        ) by {
            assert(r[i] == list[i]);
            if j < list.len() {
                assert(r[j] == list[j]);
            } else {
                let last = list[list.len() - 1];
                assert(list.contains(last));
                if i < list.len() - 1 {
                    assert(year_comes_first(list[i], last, around));
                }
            }
        }
    }
}

/// The years of a list of times are tried each once, the nearest first.
pub proof fn nearer_years_are_tried_first(list: Seq<Seq<char>>, around: int)
    ensures
        forall|i: int, j: int|
            0 <= i < j < years_of(list, around).len() ==> year_comes_first(
                #[trigger] years_of(list, around)[i],
                #[trigger] years_of(list, around)[j],
                around,
            ),
        forall|y: int| #[trigger]
            years_of(list, around).contains(y) <==> exists|i: int|
                0 <= i < list.len() && stamp_year(#[trigger] list[i]) == y,
    decreases list.len(),
{
    if list.len() > 0 {
        let front = list.drop_last();
        nearer_years_are_tried_first(front, around);
        let years = years_of(front, around);
        let last = stamp_year(list.last());
        assert(years_ordered(years, around));
        if !years.contains(last) {
            lemma_year_inserted(years, last, around);
            assert(years_ordered(years_of(list, around), around));
        }
        assert(list[list.len() - 1] == list.last());
        assert forall|y: int| #[trigger] years_of(list, around).contains(y) <==> exists|i: int|
            0 <= i < list.len() && stamp_year(#[trigger] list[i]) == y by {
            assert(years_of(list, around).contains(y) <==> years.contains(y) || y == last);
            if years.contains(y) {
                let i = choose|i: int| 0 <= i < front.len() && stamp_year(#[trigger] front[i]) == y;
                assert(stamp_year(list[i]) == y);
            }
            if exists|i: int| 0 <= i < list.len() && stamp_year(#[trigger] list[i]) == y {
                let i = choose|i: int| 0 <= i < list.len() && stamp_year(#[trigger] list[i]) == y;
                if i < front.len() {
                    assert(stamp_year(front[i]) == y);
                }
            }
        }
    }
}

/// Of the snapshots kept back the one that carries the most of the quotes is
/// pinned, the first of several that carry as many; none is where none
/// carries any.
pub proof fn the_snapshot_with_the_most_quotes_is_pinned(
    window: Seq<(Seq<char>, Seq<char>)>,
    quotes: Seq<Seq<char>>,
)
    ensures
        match best_cover(window, quotes) {
            None => forall|k: int|
                0 <= k < window.len() ==> quotes.len() - uncovered(
                    (#[trigger] window[k]).1,
                    quotes,
                ).len() <= 0,
            Some(i) => {
                &&& 0 <= i < window.len()
                &&& uncovered(window[i].1, quotes).len() < quotes.len()
                &&& forall|k: int|
                    0 <= k < window.len() ==> uncovered(window[i].1, quotes).len() <= uncovered(
                        (#[trigger] window[k]).1,
                        quotes,
                    ).len()
                &&& forall|k: int|
                    0 <= k < i ==> uncovered(window[i].1, quotes).len() < uncovered(
                        (#[trigger] window[k]).1,
                        quotes,
                    ).len()
            },
        },
    decreases window.len(),
{
    if window.len() > 0 {
        let front = window.drop_last();
        the_snapshot_with_the_most_quotes_is_pinned(front, quotes);
        assert forall|k: int| 0 <= k < front.len() implies #[trigger] window[k] == front[k] by {}
        assert(window[window.len() - 1] == window.last());
        if best_cover(front, quotes) is Some {
            let i = best_cover(front, quotes)->Some_0;
            assert(window[i] == front[i]);
        }
    }
}

}
