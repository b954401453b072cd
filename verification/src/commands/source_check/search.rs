//! The search of an archive for snapshots that carry quotes.
//!
//! Every function here works on what has been fetched so far. Where it needs
//! something else it gives back the request for it.

use vstd::prelude::*;
use vstd::string::*;

use crate::commands::source_check::quotes::{quote_standing, standing, Standing};
use crate::commands::source_check::snapshots::{
    raw_snapshot_url, raw_url, PIN_CANDIDATES, PIN_FETCH_BUDGET,
};
use crate::commands::source_check::web::{Request, RequestModel, SourceOptions, Web, WebModel};
use crate::text::{clone_texts, lemma_push_text, lemma_take_next, opt_text, texts};

verus! {

/// The text of a pinned snapshot as it is compared, when it could be read.
pub open spec fn page_at(web: WebModel, pin: Seq<char>) -> Result<Option<Seq<char>>, RequestModel> {
    if web.pages.dom().contains(raw_url(pin)) {
        Ok(web.pages[raw_url(pin)].page)
    } else {
        Err(RequestModel::Snapshot(raw_url(pin)))
    }
}

/// The normalised text of a pinned snapshot, if it can be fetched.
pub fn snapshot_page(web: &Web, pin: &str) -> (r: Result<Option<String>, Request>)
    ensures
        match r {
            Ok(page) => page_at(web@, pin@) == Ok::<Option<Seq<char>>, RequestModel>(
                opt_text(page),
            ),
            Err(request) => page_at(web@, pin@) == Err::<Option<Seq<char>>, RequestModel>(
                request@,
            ),
        },
{
    let raw = raw_snapshot_url(pin);
    match web.pages.get(raw.as_str()) {
        Some(snapshot) => Ok(crate::text::clone_opt(&snapshot.page)),
        None => Err(Request::Snapshot(raw)),
    }
}

/// Why a pinned snapshot could not be fetched, if it could not.
pub open spec fn pin_failure(web: WebModel, pin: Seq<char>) -> Option<Seq<char>> {
    if web.pages.dom().contains(raw_url(pin)) {
        web.pages[raw_url(pin)].failure
    } else {
        None
    }
}

/// Why a pinned snapshot could not be fetched this run, if it could not.
/// A pin that was never read says nothing about the passage it holds.
pub fn pin_fetch_failed(web: &Web, pin: &str) -> (r: Option<String>)
    ensures
        opt_text(r) == pin_failure(web@, pin@),
{
    let raw = raw_snapshot_url(pin);
    match web.pages.get(raw.as_str()) {
        Some(snapshot) => crate::text::clone_opt(&snapshot.failure),
        None => None,
    }
}

/// The snapshots of a page in the order they are tried.
pub open spec fn stamps_at(
    web: WebModel,
    url: Seq<char>,
) -> Result<Seq<Seq<char>>, RequestModel> {
    if web.stamps.dom().contains(url) {
        Ok(web.stamps[url])
    } else {
        Err(RequestModel::Index(url))
    }
}

/// The first few of a list.
pub open spec fn at_most(list: Seq<Seq<char>>, n: nat) -> Seq<Seq<char>> {
    if list.len() <= n {
        list
    } else {
        list.take(n as int)
    }
}

fn snapshot_stamps(web: &Web, url: &str, n: usize) -> (r: Result<Vec<String>, Request>)
    ensures
        match r {
            Ok(stamps) => stamps_at(web@, url@) is Ok && texts(stamps@) == at_most(
                stamps_at(web@, url@)->Ok_0,
                n as nat,
            ),
            Err(request) => stamps_at(web@, url@) == Err::<Seq<Seq<char>>, RequestModel>(
                request@,
            ),
        },
{
    match web.stamps.get(url) {
        None => Err(Request::Index(url.to_string())),
        Some(stamps) => {
            let ghost all = texts(stamps.list@);
            let mut r: Vec<String> = Vec::new();
            assert(texts(r@) =~= all.take(0));
            let size: usize = if stamps.list.len() <= n {
                stamps.list.len()
            } else {
                n
            };
            for i in 0..size
                invariant
                    size <= stamps.list@.len(),
                    all == texts(stamps.list@),
                    texts(r@) == all.take(i as int),
            {
                proof {
                    lemma_push_text(r@, stamps.list@[i as int]);
                    lemma_take_next(all, i as int);
                }
                r.push(stamps.list[i].clone());
            }
            assert(all.take(all.len() as int) == all);
            Ok(r)
        },
    }
}

/// The URL of a snapshot of a page.
pub open spec fn pin_url(archive_web: Seq<char>, ts: Seq<char>, url: Seq<char>) -> Seq<char> {
    archive_web + "/"@ + ts + "/"@ + url
}

fn pin_for(archive_web: &str, ts: &str, url: &str) -> (r: String)
    ensures
        r@ == pin_url(archive_web@, ts@, url@),
{
    let mut r = archive_web.to_string();
    r.append("/");
    r.append(ts);
    r.append("/");
    r.append(url);
    r
}

// ---------------------------------------------------------------------------
// Pins for lost quotes
// ---------------------------------------------------------------------------

/// The quotes that a page does not carry.
pub open spec fn uncovered(page: Seq<char>, quotes: Seq<Seq<char>>) -> Seq<Seq<char>>
    decreases quotes.len(),
{
    if quotes.len() == 0 {
        Seq::empty()
    } else if standing(page, quotes.last()) == Standing::Missing {
        uncovered(page, quotes.drop_last()).push(quotes.last())
    } else {
        uncovered(page, quotes.drop_last())
    }
}

/// How many of the quotes a page carries.
pub open spec fn gain(page: Seq<char>, quotes: Seq<Seq<char>>) -> int {
    quotes.len() - uncovered(page, quotes).len()
}

/// What a list of snapshots with their texts is.
pub open spec fn pages_of(list: Seq<(String, String)>) -> Seq<(Seq<char>, Seq<char>)> {
    Seq::new(list.len(), |i: int| (list[i].0@, list[i].1@))
}

/// The snapshot of the window that carries the most of the quotes, the first
/// of several that carry as many; none when none carries any.
pub open spec fn best_cover(
    window: Seq<(Seq<char>, Seq<char>)>,
    quotes: Seq<Seq<char>>,
) -> Option<int>
    decreases window.len(),
{
    if window.len() == 0 {
        None
    } else {
        let best = best_cover(window.drop_last(), quotes);
        let n = gain(window.last().1, quotes);
        match best {
            None => if n > 0 {
                Some(window.len() - 1)
            } else {
                None
            },
            Some(i) => if n > gain(window[i].1, quotes) {
                Some(window.len() - 1)
            } else {
                best
            },
        }
    }
}

/// A search in progress: the quotes still lost, the snapshots pinned with
/// their texts, and the nearest ones kept back.
pub struct SearchModel {
    pub remaining: Seq<Seq<char>>,
    pub pins: Seq<(Seq<char>, Seq<char>)>,
    pub window: Seq<(Seq<char>, Seq<char>)>,
}

/// Pin, from the nearest window, the snapshot covering the most remaining
/// quotes (nearest first on a tie), and repeat while any still adds one.
pub open spec fn best_covers(s: SearchModel) -> SearchModel
    decreases s.window.len(),
{
    match best_cover(s.window, s.remaining) {
        None => s,
        Some(i) => if 0 <= i < s.window.len() {
            best_covers(
                SearchModel {
                    remaining: uncovered(s.window[i].1, s.remaining),
                    pins: s.pins.push(s.window[i]),
                    window: s.window.remove(i),
                },
            )
        } else {
            s
        },
    }
}

/// At the end of the nearest window the best covers among it are pinned.
pub open spec fn window_end(s: SearchModel, i: int, total: int) -> SearchModel {
    if i < PIN_CANDIDATES && (i + 1 == PIN_CANDIDATES || i + 1 == total) {
        best_covers(s)
    } else {
        s
    }
}

/// The search after the `i`-th of `total` snapshots, whose text is `page`
/// when it could be read: one that carries everything ends the search; the
/// nearest few are kept back; a later one is pinned when it carries something.
pub open spec fn search_step(
    s: SearchModel,
    i: int,
    total: int,
    pin: Seq<char>,
    page: Option<Seq<char>>,
) -> SearchModel {
    match page {
        None => window_end(s, i, total),
        Some(text) => {
            let left = uncovered(text, s.remaining);
            if left.len() == 0 {
                SearchModel { remaining: left, pins: s.pins.push((pin, text)), window: s.window }
            } else if i < PIN_CANDIDATES {
                window_end(SearchModel { window: s.window.push((pin, text)), ..s }, i, total)
            } else if left.len() < s.remaining.len() {
                SearchModel { remaining: left, pins: s.pins.push((pin, text)), window: s.window }
            } else {
                s
            }
        },
    }
}

/// The search after the first `n` snapshots; it ends when nothing is lost any
/// more.
pub open spec fn search(
    web: WebModel,
    archive_web: Seq<char>,
    stamps: Seq<Seq<char>>,
    url: Seq<char>,
    lost: Seq<Seq<char>>,
    n: nat,
) -> Result<SearchModel, RequestModel>
    decreases n,
{
    if n == 0 {
        Ok(SearchModel { remaining: lost, pins: Seq::empty(), window: Seq::empty() })
    } else {
        match search(web, archive_web, stamps, url, lost, (n - 1) as nat) {
            Err(request) => Err(request),
            Ok(s) => if s.remaining.len() == 0 {
                Ok(s)
            } else {
                let pin = pin_url(archive_web, stamps[n - 1], url);
                match page_at(web, pin) {
                    Err(request) => Err(request),
                    Ok(page) => Ok(search_step(s, n - 1, stamps.len() as int, pin, page)),
                }
            },
        }
    }
}

/// The snapshots of a page that carry the lost quotes.
pub open spec fn pins_found(
    web: WebModel,
    archive_web: Seq<char>,
    url: Seq<char>,
    lost: Seq<Seq<char>>,
) -> Result<Seq<(Seq<char>, Seq<char>)>, RequestModel> {
    match stamps_at(web, url) {
        Err(request) => Err(request),
        Ok(all) => {
            let stamps = at_most(all, PIN_FETCH_BUDGET as nat);
            match search(web, archive_web, stamps, url, lost, stamps.len()) {
                Err(request) => Err(request),
                Ok(s) => Ok(s.pins),
            }
        },
    }
}

fn uncovered_by(page: &str, quotes: &Vec<String>) -> (r: Vec<String>)
    ensures
        texts(r@) == uncovered(page@, texts(quotes@)),
        r@.len() <= quotes@.len(),
{
    let ghost all = texts(quotes@);
    let mut r: Vec<String> = Vec::new();
    assert(texts(r@) =~= uncovered(page@, all.take(0)));
    for i in 0..quotes.len()
        invariant
            all == texts(quotes@),
            texts(r@) == uncovered(page@, all.take(i as int)),
            r@.len() <= i,
    {
        assert(all.take(i + 1).drop_last() == all.take(i as int));
        assert(all.take(i + 1).last() == quotes@[i as int]@);
        if let Standing::Missing = quote_standing(page, quotes[i].as_str()) {
            proof {
                lemma_push_text(r@, quotes@[i as int]);
            }
            r.push(quotes[i].clone());
        }
    }
    assert(all.take(quotes@.len() as int) == all);
    r
}

fn gain_of(page: &str, quotes: &Vec<String>) -> (r: usize)
    ensures
        r == gain(page@, texts(quotes@)),
{
    let left = uncovered_by(page, quotes);
    assert(texts(left@).len() == left@.len());
    quotes.len() - left.len()
}

fn find_best(window: &Vec<(String, String)>, quotes: &Vec<String>) -> (r: Option<usize>)
    ensures
        r is Some <==> best_cover(pages_of(window@), texts(quotes@)) is Some,
        r matches Some(i) ==> i < window@.len() && best_cover(pages_of(window@), texts(quotes@))
            == Some(i as int),
{
    let ghost all = pages_of(window@);
    let ghost lost = texts(quotes@);
    let mut best: Option<usize> = None;
    assert(all.take(0) =~= Seq::<(Seq<char>, Seq<char>)>::empty());
    for i in 0..window.len()
        invariant
            all == pages_of(window@),
            lost == texts(quotes@),
            best is Some <==> best_cover(all.take(i as int), lost) is Some,
            best matches Some(b) ==> b < i && best_cover(all.take(i as int), lost) == Some(
                b as int,
            ),
    {
        assert(all.take(i + 1).drop_last() == all.take(i as int));
        assert(all.take(i + 1).last().1 == window@[i as int].1@);
        let n: usize = gain_of(window[i].1.as_str(), quotes);
        match best {
            None => {
                if n > 0 {
                    best = Some(i);
                }
            },
            Some(b) => {
                assert(all.take(i + 1)[b as int].1 == window@[b as int].1@);
                if n > gain_of(window[b].1.as_str(), quotes) {
                    best = Some(i);
                }
            },
        }
    }
    assert(all.take(window@.len() as int) == all);
    best
}

/// A search in progress.
struct Search {
    remaining: Vec<String>,
    pins: Vec<(String, String)>,
    window: Vec<(String, String)>,
}

impl View for Search {
    type V = SearchModel;

    closed spec fn view(&self) -> SearchModel {
        SearchModel {
            remaining: texts(self.remaining@),
            pins: pages_of(self.pins@),
            window: pages_of(self.window@),
        }
    }
}

/// Pin, from the nearest window, the snapshot covering the most remaining
/// quotes (nearest first on a tie), and repeat while any still adds one.
fn take_best_covers(s: &mut Search)
    ensures
        final(s)@ == best_covers(old(s)@),
{
    let ghost start = s@;
    loop
        invariant
            best_covers(s@) == best_covers(start),
        ensures
            s@ == best_covers(start),
        decreases s.window@.len(),
    {
        let ghost before = s@;
        match find_best(&s.window, &s.remaining) {
            None => {
                break;
            },
            Some(i) => {
                let ghost old_window = s.window@;
                let ghost old_pins = s.pins@;
                let (pin, page) = s.window.remove(i);
                let left = uncovered_by(page.as_str(), &s.remaining);
                s.remaining = left;
                s.pins.push((pin, page));
                assert(pages_of(s.window@) =~= pages_of(old_window).remove(i as int));
                assert(pages_of(s.pins@) =~= pages_of(old_pins).push(
                    pages_of(old_window)[i as int],
                ));
                assert(best_covers(s@) == best_covers(before));
            },
        }
    }
}

fn end_of_window(s: &mut Search, i: usize, total: usize)
    requires
        i < total,
    ensures
        final(s)@ == window_end(old(s)@, i as int, total as int),
{
    if i < PIN_CANDIDATES && (i + 1 == PIN_CANDIDATES || i + 1 == total) {
        take_best_covers(s);
    }
}

fn step(s: &mut Search, i: usize, total: usize, pin: String, page: Option<String>)
    requires
        i < total,
    ensures
        final(s)@ == search_step(old(s)@, i as int, total as int, pin@, opt_text(page)),
{
    match page {
        None => {
            end_of_window(s, i, total);
        },
        Some(text) => {
            let left = uncovered_by(text.as_str(), &s.remaining);
            let ghost pins_before = s.pins@;
            let ghost window_before = s.window@;
            let ghost item = (pin@, text@);
            if left.len() == 0 {
                s.remaining = left;
                s.pins.push((pin, text));
                assert(pages_of(s.pins@) =~= pages_of(pins_before).push(item));
            } else if i < PIN_CANDIDATES {
                s.window.push((pin, text));
                assert(pages_of(s.window@) =~= pages_of(window_before).push(item));
                end_of_window(s, i, total);
            } else if left.len() < s.remaining.len() {
                s.remaining = left;
                s.pins.push((pin, text));
                assert(pages_of(s.pins@) =~= pages_of(pins_before).push(item));
            }
        },
    }
}

/// A search that needs an answer needs it however far it is to go.
proof fn lemma_search_err(
    web: WebModel,
    archive_web: Seq<char>,
    stamps: Seq<Seq<char>>,
    url: Seq<char>,
    lost: Seq<Seq<char>>,
    n: nat,
    m: nat,
)
    requires
        n <= m,
        search(web, archive_web, stamps, url, lost, n) is Err || search(
            web,
            archive_web,
            stamps,
            url,
            lost,
            n,
        )->Ok_0.remaining.len() == 0,
    ensures
        search(web, archive_web, stamps, url, lost, m) == search(
            web,
            archive_web,
            stamps,
            url,
            lost,
            n,
        ),
    decreases m,
{
    if n < m {
        lemma_search_err(web, archive_web, stamps, url, lost, n, (m - 1) as nat);
    }
}

/// Search the archive for snapshots of `url` that carry the `lost` quotes.
/// The `PIN_CANDIDATES` snapshots nearest the chosen date are tried first,
/// hoping one carries them all; failing that, the best partial covers among
/// them are pinned, and one snapshot per calendar year over the rest of the
/// archive is tried for whatever is left, nearest year first, until
/// `PIN_FETCH_BUDGET` fetches. Each pin returned carries at least one quote
/// no earlier pin did; quotes no snapshot carries stay missing.
pub fn find_pins(web: &Web, opts: &SourceOptions, url: &str, lost: &Vec<String>) -> (r: Result<
    Vec<(String, String)>,
    Request,
>)
    ensures
        match r {
            Ok(pins) => pins_found(web@, opts.archive_web@, url@, texts(lost@)) == Ok::<
                Seq<(Seq<char>, Seq<char>)>,
                RequestModel,
            >(pages_of(pins@)),
            Err(request) => pins_found(web@, opts.archive_web@, url@, texts(lost@)) == Err::<
                Seq<(Seq<char>, Seq<char>)>,
                RequestModel,
            >(request@),
        },
{
    let stamps = match snapshot_stamps(web, url, PIN_FETCH_BUDGET) {
        Ok(stamps) => stamps,
        Err(request) => {
            return Err(request);
        },
    };
    let ghost list = texts(stamps@);
    let ghost quotes = texts(lost@);
    let ghost base = opts.archive_web@;
    let mut s = Search { remaining: clone_texts(lost), pins: Vec::new(), window: Vec::new() };
    assert(s@ == search(web@, base, list, url@, quotes, 0)->Ok_0) by {
        assert(pages_of(s.pins@) =~= Seq::<(Seq<char>, Seq<char>)>::empty());
        assert(pages_of(s.window@) =~= Seq::<(Seq<char>, Seq<char>)>::empty());
    }
    let total: usize = stamps.len();
    for i in 0..total
        invariant
            total == stamps@.len(),
            list == texts(stamps@),
            quotes == texts(lost@),
            base == opts.archive_web@,
            stamps_at(web@, url@) is Ok,
            list == at_most(stamps_at(web@, url@)->Ok_0, PIN_FETCH_BUDGET as nat),
            search(web@, base, list, url@, quotes, i as nat) == Ok::<SearchModel, RequestModel>(s@),
    {
        if s.remaining.len() == 0 {
            proof {
                assert(s@.remaining.len() == 0);
                lemma_search_err(web@, base, list, url@, quotes, i as nat, total as nat);
            }
            return Ok(s.pins);
        }
        assert(s@.remaining.len() > 0);
        let pin = pin_for(opts.archive_web.as_str(), stamps[i].as_str(), url);
        match snapshot_page(web, pin.as_str()) {
            Err(request) => {
                proof {
                    assert(search(web@, base, list, url@, quotes, (i + 1) as nat) is Err);
                    lemma_search_err(web@, base, list, url@, quotes, (i + 1) as nat, total as nat);
                }
                return Err(request);
            },
            Ok(page) => {
                step(&mut s, i, total, pin, page);
            },
        }
    }
    Ok(s.pins)
}

// ---------------------------------------------------------------------------
// Pins for drifted quotes
// ---------------------------------------------------------------------------

/// The first snapshot from the `k`-th on that carries a quote word for word.
pub open spec fn exact_from(
    web: WebModel,
    pins: Seq<Seq<char>>,
    quote: Seq<char>,
    k: nat,
) -> Result<Option<Seq<char>>, RequestModel>
    decreases pins.len() - k,
{
    if k >= pins.len() {
        Ok(None)
    } else {
        match page_at(web, pins[k as int]) {
            Err(request) => Err(request),
            Ok(Some(page)) if standing(page, quote) == Standing::Present => Ok(
                Some(pins[k as int]),
            ),
            Ok(_) => exact_from(web, pins, quote, k + 1),
        }
    }
}

/// The snapshots of a page at the given times.
pub open spec fn pin_urls(
    archive_web: Seq<char>,
    stamps: Seq<Seq<char>>,
    url: Seq<char>,
) -> Seq<Seq<char>> {
    Seq::new(stamps.len(), |i: int| pin_url(archive_web, stamps[i], url))
}

/// The nearest snapshot of a page carrying a quote verbatim, from the window
/// that is tried first.
pub open spec fn exact_pin(
    web: WebModel,
    archive_web: Seq<char>,
    url: Seq<char>,
    quote: Seq<char>,
) -> Result<Option<Seq<char>>, RequestModel> {
    match stamps_at(web, url) {
        Err(request) => Err(request),
        Ok(all) => exact_from(
            web,
            pin_urls(archive_web, at_most(all, PIN_CANDIDATES as nat), url),
            quote,
            0,
        ),
    }
}

/// The first of the snapshots that carries a quote word for word.
pub fn first_exact(web: &Web, pins: &Vec<String>, quote: &str) -> (r: Result<
    Option<String>,
    Request,
>)
    ensures
        match r {
            Ok(pin) => exact_from(web@, texts(pins@), quote@, 0) == Ok::<
                Option<Seq<char>>,
                RequestModel,
            >(opt_text(pin)),
            Err(request) => exact_from(web@, texts(pins@), quote@, 0) == Err::<
                Option<Seq<char>>,
                RequestModel,
            >(request@),
        },
{
    let ghost all = texts(pins@);
    for k in 0..pins.len()
        invariant
            all == texts(pins@),
            exact_from(web@, all, quote@, 0) == exact_from(web@, all, quote@, k as nat),
    {
        assert(all[k as int] == pins@[k as int]@);
        match snapshot_page(web, pins[k].as_str()) {
            Err(request) => {
                return Err(request);
            },
            Ok(Some(page)) => {
                if let Standing::Present = quote_standing(page.as_str(), quote) {
                    return Ok(Some(pins[k].clone()));
                }
            },
            Ok(None) => {},
        }
    }
    Ok(None)
}

/// The nearest snapshot of `url` carrying `quote` verbatim, from the window
/// `find_pins` tries first.
///
/// A drifted passage is still on the live page, so only the nearest window is
/// searched: enough to anchor a citation, not a whole-archive sweep for every
/// warning. `find_pins` accepts a snapshot where the quote has also drifted,
/// which would resolve nothing here: anchoring a drifted quote to a copy it
/// has also drifted from leaves the same warning next run.
pub fn find_exact_pin(web: &Web, opts: &SourceOptions, url: &str, quote: &str) -> (r: Result<
    Option<String>,
    Request,
>)
    ensures
        match r {
            Ok(pin) => exact_pin(web@, opts.archive_web@, url@, quote@) == Ok::<
                Option<Seq<char>>,
                RequestModel,
            >(opt_text(pin)),
            Err(request) => exact_pin(web@, opts.archive_web@, url@, quote@) == Err::<
                Option<Seq<char>>,
                RequestModel,
            >(request@),
        },
{
    let stamps = match snapshot_stamps(web, url, PIN_CANDIDATES) {
        Ok(stamps) => stamps,
        Err(request) => {
            return Err(request);
        },
    };
    let ghost all = pin_urls(opts.archive_web@, texts(stamps@), url@);
    let mut pins: Vec<String> = Vec::new();
    assert(texts(pins@) =~= all.take(0));
    for i in 0..stamps.len()
        invariant
            all == pin_urls(opts.archive_web@, texts(stamps@), url@),
            texts(pins@) == all.take(i as int),
    {
        let pin = pin_for(opts.archive_web.as_str(), stamps[i].as_str(), url);
        proof {
            lemma_push_text(pins@, pin);
            lemma_take_next(all, i as int);
        }
        pins.push(pin);
    }
    assert(all.take(stamps@.len() as int) == all);
    first_exact(web, &pins, quote)
}

}
