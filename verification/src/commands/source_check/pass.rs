//! The source pass: every page in the lock, in order.
//!
//! A pass works on what has been fetched so far. It goes on until it needs
//! something that has not been fetched; then it gives back the request, and
//! goes on from there once the answer is recorded.

use vstd::prelude::*;
use vstd::string::*;

use crate::commands::audit::{findings_of, lemma_push_finding, Finding, FindingModel};
use crate::commands::source_check::term::{
    live_term, settle_live, settle_unreachable, source_finding, unreachable_term, writes_of,
    PinWrite, Tally, TallyModel, WriteModel,
};
use crate::commands::source_check::urls::{host, host_of};
use crate::commands::source_check::web::{
    Live, LiveModel, Request, RequestModel, SourceOptions, Web, WebModel,
};
use crate::commands::sources::{
    all_sources, build_lock, lock_of, opt_lock, EntryModel, Lock, LockEntry, TermModel,
    TermSources,
};
use crate::number::{decimal, decimal_text};
use crate::order::{lemma_strictly_ascending_unique, strictly_ascending};
use crate::table::Table;
use crate::text::{clone_opt, clone_texts, texts};

verus! {

/// What the check of one page comes to.
pub struct OutcomeModel {
    pub entry: EntryModel,
    pub findings: Seq<FindingModel>,
    pub writes: Seq<WriteModel>,
    pub down: Map<Seq<char>, Seq<char>>,
}

/// What is known of a page. A host that already failed is not fetched again.
pub open spec fn live_at(
    web: WebModel,
    url: Seq<char>,
    site: Seq<char>,
    down: Map<Seq<char>, Seq<char>>,
) -> Result<LiveModel, RequestModel> {
    if down.dom().contains(site) {
        Ok(LiveModel::Unreachable(down[site]))
    } else if web.live.dom().contains(url) {
        Ok(web.live[url])
    } else {
        Err(RequestModel::Page(url))
    }
}

/// The pins of a page that did not answer: where it has none, the closest
/// snapshot that the archive names.
pub open spec fn looked_up(
    web: WebModel,
    url: Seq<char>,
    archives: Seq<Seq<char>>,
) -> Result<Seq<Seq<char>>, RequestModel> {
    if archives.len() > 0 {
        Ok(archives)
    } else if web.lookups.dom().contains(url) {
        match web.lookups[url] {
            Some(archive) => Ok(seq![archive]),
            None => Ok(archives),
        }
    } else {
        Err(RequestModel::Lookup(url))
    }
}

/// The tally of a page that answered after the first `n` of its citing terms.
pub open spec fn live_terms(
    all: Seq<TermModel>,
    web: WebModel,
    archive_web: Seq<char>,
    url: Seq<char>,
    page: Seq<char>,
    t: TallyModel,
    terms: Seq<Seq<char>>,
    n: nat,
) -> Result<TallyModel, RequestModel>
    decreases n,
{
    if n == 0 {
        Ok(t)
    } else {
        match live_terms(all, web, archive_web, url, page, t, terms, (n - 1) as nat) {
            Err(request) => Err(request),
            Ok(u) => live_term(all, web, archive_web, url, page, u, terms[n - 1]),
        }
    }
}

/// The tally of a page whose host is unreachable after the first `n` of its
/// citing terms.
pub open spec fn unreachable_terms(
    all: Seq<TermModel>,
    web: WebModel,
    url: Seq<char>,
    site: Seq<char>,
    reason: Seq<char>,
    t: TallyModel,
    terms: Seq<Seq<char>>,
    n: nat,
) -> Result<TallyModel, RequestModel>
    decreases n,
{
    if n == 0 {
        Ok(t)
    } else {
        match unreachable_terms(all, web, url, site, reason, t, terms, (n - 1) as nat) {
            Err(request) => Err(request),
            Ok(u) => unreachable_term(all, web, url, site, reason, u, terms[n - 1]),
        }
    }
}

/// The finding for a page that answered with an error status.
pub open spec fn dead_finding(
    url: Seq<char>,
    status: u16,
    term: Seq<char>,
    archives: Seq<Seq<char>>,
) -> FindingModel {
    source_finding(
        "dead_link"@,
        "error"@,
        term,
        "source "@ + url + " returned HTTP "@ + decimal(status as nat),
        if archives.len() > 0 {
            Some("replace the link with the archived copy "@ + archives[0])
        } else {
            None
        },
    )
}

/// The findings for a page that answered with an error status: one for each
/// citing term.
pub open spec fn dead_findings(
    url: Seq<char>,
    status: u16,
    terms: Seq<Seq<char>>,
    archives: Seq<Seq<char>>,
) -> Seq<FindingModel> {
    Seq::new(terms.len(), |i: int| dead_finding(url, status, terms[i], archives))
}

/// The tally that the check of a page begins with.
pub open spec fn fresh_tally(entry: EntryModel, archives: Seq<Seq<char>>) -> TallyModel {
    TallyModel { archives, quotes: entry.quotes, findings: Seq::empty(), writes: Seq::empty() }
}

/// What the check of one page comes to. A URL without a host is left alone;
/// an unreachable host leaves the entry as it was but for its pins; an error
/// status is a dead link; on a page that answered each quote is verified.
pub open spec fn entry_step(
    all: Seq<TermModel>,
    web: WebModel,
    archive_web: Seq<char>,
    now: Seq<char>,
    url: Seq<char>,
    entry: EntryModel,
    down: Map<Seq<char>, Seq<char>>,
) -> Result<OutcomeModel, RequestModel> {
    match host(url) {
        None => Ok(OutcomeModel { entry, findings: Seq::empty(), writes: Seq::empty(), down }),
        Some(site) => match live_at(web, url, site, down) {
            Err(request) => Err(request),
            Ok(LiveModel::Unreachable(reason)) => match looked_up(web, url, entry.archives) {
                Err(request) => Err(request),
                Ok(archives) => match unreachable_terms(
                    all,
                    web,
                    url,
                    site,
                    reason,
                    fresh_tally(entry, archives),
                    entry.cited_by,
                    entry.cited_by.len(),
                ) {
                    Err(request) => Err(request),
                    Ok(t) => Ok(
                        OutcomeModel {
                            entry: EntryModel { archives: t.archives, quotes: t.quotes, ..entry },
                            findings: t.findings,
                            writes: t.writes,
                            down: if down.dom().contains(site) {
                                down
                            } else {
                                down.insert(site, reason)
                            },
                        },
                    ),
                },
            },
            Ok(LiveModel::Dead(status)) => match looked_up(web, url, entry.archives) {
                Err(request) => Err(request),
                Ok(archives) => Ok(
                    OutcomeModel {
                        entry: EntryModel {
                            fetched_at: Some(now),
                            status: Some(status),
                            archives,
                            ..entry
                        },
                        findings: dead_findings(url, status, entry.cited_by, archives),
                        writes: Seq::empty(),
                        down,
                    },
                ),
            },
            Ok(LiveModel::Page { status, digest, page }) => match live_terms(
                all,
                web,
                archive_web,
                url,
                page,
                fresh_tally(entry, entry.archives),
                entry.cited_by,
                entry.cited_by.len(),
            ) {
                Err(request) => Err(request),
                Ok(t) => Ok(
                    OutcomeModel {
                        entry: EntryModel {
                            fetched_at: Some(now),
                            status: Some(status),
                            content_sha256: Some(digest),
                            archives: t.archives,
                            quotes: t.quotes,
                            ..entry
                        },
                        findings: t.findings,
                        writes: t.writes,
                        down,
                    },
                ),
            },
        },
    }
}

/// What the check of one page comes to.
pub struct Outcome {
    pub entry: LockEntry,
    pub findings: Vec<Finding>,
    pub writes: Vec<PinWrite>,
    /// The host that turned out to be unreachable, with the reason.
    pub failed: Option<(String, String)>,
}

/// The hosts known to be unreachable after an outcome.
pub open spec fn with_failed(
    down: Map<Seq<char>, Seq<char>>,
    failed: Option<(String, String)>,
) -> Map<Seq<char>, Seq<char>> {
    match failed {
        Some((site, reason)) => down.insert(site@, reason@),
        None => down,
    }
}

/// A copy of a table of texts.
fn copy_quotes(quotes: &Table<String>) -> (r: Table<String>)
    ensures
        r@ == quotes@,
{
    let mut r: Table<String> = Table::new();
    let n: usize = quotes.len();
    let ghost keys = quotes.keys();
    for i in 0..n
        invariant
            n == keys.len(),
            keys == quotes.keys(),
            quotes.ordered(),
            forall|k: Seq<char>| #[trigger]
                r@.dom().contains(k) <==> exists|j: int| 0 <= j < i && keys[j] == k,
            forall|k: Seq<char>| #[trigger] r@.dom().contains(k) ==> r@[k] == quotes@[k],
    {
        let ghost before = r@;
        let key = quotes.key(i).clone();
        let ghost text = key@;
        r.insert(key, quotes.value(i).clone());
        assert forall|k: Seq<char>| #[trigger] r@.dom().contains(k) <==> exists|j: int|
            0 <= j < i + 1 && keys[j] == k by {
            if before.dom().contains(k) {
                let j = choose|j: int| 0 <= j < i && keys[j] == k;
                assert(keys[j] == k);
            }
            if k == text {
                assert(keys[i as int] == k);
            }
        }
    }
    assert forall|k: Seq<char>| #[trigger] r@.dom().contains(k) <==> quotes@.dom().contains(k) by {
        assert(quotes@.dom().contains(k) <==> keys.contains(k));
    }
    assert(r@ =~= quotes@);
    r
}

fn pins_looked_up(web: &Web, url: &str, archives: &Vec<String>) -> (r: Result<
    Vec<String>,
    Request,
>)
    ensures
        match r {
            Ok(pins) => looked_up(web@, url@, texts(archives@)) == Ok::<
                Seq<Seq<char>>,
                RequestModel,
            >(texts(pins@)),
            Err(request) => looked_up(web@, url@, texts(archives@)) == Err::<
                Seq<Seq<char>>,
                RequestModel,
            >(request@),
        },
{
    let mut pins = clone_texts(archives);
    assert(texts(archives@).len() == archives@.len());
    if archives.len() > 0 {
        return Ok(pins);
    }
    match web.lookups.get(url) {
        None => Err(Request::Lookup(url.to_string())),
        Some(closest) => {
            if let Some(archive) = &closest.archive {
                assert(texts(pins@).len() == pins@.len());
                pins.push(archive.clone());
                assert(texts(pins@) =~= seq![archive@]);
            }
            Ok(pins)
        },
    }
}

fn dead_reports(url: &str, status: u16, terms: &Vec<String>, archives: &Vec<String>) -> (r: Vec<
    Finding,
>)
    ensures
        findings_of(r@) == dead_findings(url@, status, texts(terms@), texts(archives@)),
{
    let ghost all = dead_findings(url@, status, texts(terms@), texts(archives@));
    let mut r: Vec<Finding> = Vec::new();
    assert(findings_of(r@) =~= all.take(0));
    for i in 0..terms.len()
        invariant
            all == dead_findings(url@, status, texts(terms@), texts(archives@)),
            findings_of(r@) == all.take(i as int),
    {
        let mut message = "source ".to_string();
        message.append(url);
        message.append(" returned HTTP ");
        message.append(decimal_text(status as u64).as_str());
        let fix = if archives.len() > 0 {
            let mut s = "replace the link with the archived copy ".to_string();
            s.append(archives[0].as_str());
            Some(s)
        } else {
            None
        };
        let f = Finding {
            class: "sources".to_string(),
            check: "dead_link".to_string(),
            severity: "error".to_string(),
            term: terms[i].clone(),
            message,
            fix,
            fixed: false,
        };
        proof {
            lemma_push_finding(r@, f);
            crate::text::lemma_take_next(all, i as int);
            assert(f@ == all[i as int]);
        }
        r.push(f);
    }
    assert(all.take(terms@.len() as int) == all);
    r
}

proof fn lemma_live_err(
    all: Seq<TermModel>,
    web: WebModel,
    archive_web: Seq<char>,
    url: Seq<char>,
    page: Seq<char>,
    t: TallyModel,
    terms: Seq<Seq<char>>,
    n: nat,
    m: nat,
)
    requires
        n <= m,
        live_terms(all, web, archive_web, url, page, t, terms, n) is Err,
    ensures
        live_terms(all, web, archive_web, url, page, t, terms, m) == live_terms(
            all,
            web,
            archive_web,
            url,
            page,
            t,
            terms,
            n,
        ),
    decreases m,
{
    if n < m {
        lemma_live_err(all, web, archive_web, url, page, t, terms, n, (m - 1) as nat);
    }
}

proof fn lemma_unreachable_err(
    all: Seq<TermModel>,
    web: WebModel,
    url: Seq<char>,
    site: Seq<char>,
    reason: Seq<char>,
    t: TallyModel,
    terms: Seq<Seq<char>>,
    n: nat,
    m: nat,
)
    requires
        n <= m,
        unreachable_terms(all, web, url, site, reason, t, terms, n) is Err,
    ensures
        unreachable_terms(all, web, url, site, reason, t, terms, m) == unreachable_terms(
            all,
            web,
            url,
            site,
            reason,
            t,
            terms,
            n,
        ),
    decreases m,
{
    if n < m {
        lemma_unreachable_err(all, web, url, site, reason, t, terms, n, (m - 1) as nat);
    }
}

fn settle_live_terms(
    all: &Vec<TermSources>,
    web: &Web,
    opts: &SourceOptions,
    url: &str,
    page: &str,
    t: &mut Tally,
    terms: &Vec<String>,
) -> (r: Result<(), Request>)
    ensures
        match r {
            Ok(()) => live_terms(
                all_sources(all@),
                web@,
                opts.archive_web@,
                url@,
                page@,
                old(t)@,
                texts(terms@),
                terms@.len(),
            ) == Ok::<TallyModel, RequestModel>(final(t)@),
            Err(request) => live_terms(
                all_sources(all@),
                web@,
                opts.archive_web@,
                url@,
                page@,
                old(t)@,
                texts(terms@),
                terms@.len(),
            ) == Err::<TallyModel, RequestModel>(request@),
        },
{
    let ghost start = t@;
    let ghost list = texts(terms@);
    let ghost every = all_sources(all@);
    let ghost base = opts.archive_web@;
    for i in 0..terms.len()
        invariant
            start == old(t)@,
            list == texts(terms@),
            every == all_sources(all@),
            base == opts.archive_web@,
            live_terms(every, web@, base, url@, page@, start, list, i as nat) == Ok::<
                TallyModel,
                RequestModel,
            >(t@),
    {
        assert(list[i as int] == terms@[i as int]@);
        match settle_live(all, web, opts, url, page, t, terms[i].as_str()) {
            Ok(()) => {},
            Err(request) => {
                proof {
                    lemma_live_err(
                        every,
                        web@,
                        base,
                        url@,
                        page@,
                        start,
                        list,
                        (i + 1) as nat,
                        list.len(),
                    );
                }
                return Err(request);
            },
        }
    }
    Ok(())
}

fn settle_unreachable_terms(
    all: &Vec<TermSources>,
    web: &Web,
    url: &str,
    site: &str,
    reason: &str,
    t: &mut Tally,
    terms: &Vec<String>,
) -> (r: Result<(), Request>)
    ensures
        match r {
            Ok(()) => unreachable_terms(
                all_sources(all@),
                web@,
                url@,
                site@,
                reason@,
                old(t)@,
                texts(terms@),
                terms@.len(),
            ) == Ok::<TallyModel, RequestModel>(final(t)@),
            Err(request) => unreachable_terms(
                all_sources(all@),
                web@,
                url@,
                site@,
                reason@,
                old(t)@,
                texts(terms@),
                terms@.len(),
            ) == Err::<TallyModel, RequestModel>(request@),
        },
{
    let ghost start = t@;
    let ghost list = texts(terms@);
    let ghost every = all_sources(all@);
    for i in 0..terms.len()
        invariant
            start == old(t)@,
            list == texts(terms@),
            every == all_sources(all@),
            unreachable_terms(every, web@, url@, site@, reason@, start, list, i as nat) == Ok::<
                TallyModel,
                RequestModel,
            >(t@),
    {
        assert(list[i as int] == terms@[i as int]@);
        match settle_unreachable(all, web, url, site, reason, t, terms[i].as_str()) {
            Ok(()) => {},
            Err(request) => {
                proof {
                    lemma_unreachable_err(
                        every,
                        web@,
                        url@,
                        site@,
                        reason@,
                        start,
                        list,
                        (i + 1) as nat,
                        list.len(),
                    );
                }
                return Err(request);
            },
        }
    }
    Ok(())
}

/// What an outcome is, once the hosts known to be unreachable are known.
pub open spec fn outcome_model(o: Outcome, down: Map<Seq<char>, Seq<char>>) -> OutcomeModel {
    OutcomeModel {
        entry: o.entry@,
        findings: findings_of(o.findings@),
        writes: writes_of(o.writes@),
        down: with_failed(down, o.failed),
    }
}

fn new_tally(entry: &LockEntry, archives: Vec<String>) -> (r: Tally)
    ensures
        r@ == fresh_tally(entry@, texts(archives@)),
{
    let r = Tally {
        archives,
        quotes: copy_quotes(&entry.quotes),
        findings: Vec::new(),
        writes: Vec::new(),
    };
    assert(findings_of(r.findings@) =~= Seq::<FindingModel>::empty());
    assert(writes_of(r.writes@) =~= Seq::<WriteModel>::empty());
    r
}

/// Checks one page.
pub fn check_entry(
    all: &Vec<TermSources>,
    web: &Web,
    opts: &SourceOptions,
    now: &str,
    url: &str,
    entry: &LockEntry,
    down: &Table<String>,
) -> (r: Result<Outcome, Request>)
    ensures
        match r {
            Ok(o) => entry_step(
                all_sources(all@),
                web@,
                opts.archive_web@,
                now@,
                url@,
                entry@,
                down@,
            ) == Ok::<OutcomeModel, RequestModel>(outcome_model(o, down@)),
            Err(request) => entry_step(
                all_sources(all@),
                web@,
                opts.archive_web@,
                now@,
                url@,
                entry@,
                down@,
            ) == Err::<OutcomeModel, RequestModel>(request@),
        },
{
    let cited_by = clone_texts(&entry.cited_by);
    let site = match host_of(url) {
        None => {
            let o = Outcome {
                entry: LockEntry {
                    cited_by,
                    fetched_at: clone_opt(&entry.fetched_at),
                    status: entry.status,
                    content_sha256: clone_opt(&entry.content_sha256),
                    quotes: copy_quotes(&entry.quotes),
                    archives: clone_texts(&entry.archives),
                },
                findings: Vec::new(),
                writes: Vec::new(),
                failed: None,
            };
            assert(findings_of(o.findings@) =~= Seq::<FindingModel>::empty());
            assert(writes_of(o.writes@) =~= Seq::<WriteModel>::empty());
            return Ok(o);
        },
        Some(site) => site,
    };
    let known = down.get(site.as_str());
    let (reason, first) = match known {
        Some(reason) => (Some(reason.clone()), false),
        None => match web.live.get(url) {
            None => {
                return Err(Request::Page(url.to_string()));
            },
            Some(Live::Unreachable(reason)) => (Some(reason.clone()), true),
            Some(_) => (None, false),
        },
    };
    if let Some(reason) = reason {
        assert(live_at(web@, url@, site@, down@) == Ok::<LiveModel, RequestModel>(
            LiveModel::Unreachable(reason@),
        ));
        let archives = match pins_looked_up(web, url, &entry.archives) {
            Ok(archives) => archives,
            Err(request) => {
                return Err(request);
            },
        };
        let mut t = new_tally(entry, archives);
        match settle_unreachable_terms(
            all,
            web,
            url,
            site.as_str(),
            reason.as_str(),
            &mut t,
            &entry.cited_by,
        ) {
            Ok(()) => {},
            Err(request) => {
                assert(texts(entry.cited_by@).len() == entry.cited_by@.len());
                return Err(request);
            },
        }
        assert(texts(entry.cited_by@).len() == entry.cited_by@.len());
        return Ok(
            Outcome {
                entry: LockEntry {
                    cited_by,
                    fetched_at: clone_opt(&entry.fetched_at),
                    status: entry.status,
                    content_sha256: clone_opt(&entry.content_sha256),
                    quotes: t.quotes,
                    archives: t.archives,
                },
                findings: t.findings,
                writes: t.writes,
                failed: if first {
                    Some((site, reason))
                } else {
                    None
                },
            },
        );
    }
    match web.live.get(url) {
        None => Err(Request::Page(url.to_string())),
        Some(Live::Unreachable(_)) => Err(Request::Page(url.to_string())),
        Some(Live::Dead(status)) => {
            let archives = match pins_looked_up(web, url, &entry.archives) {
                Ok(archives) => archives,
                Err(request) => {
                    return Err(request);
                },
            };
            let findings = dead_reports(url, *status, &entry.cited_by, &archives);
            let o = Outcome {
                entry: LockEntry {
                    cited_by,
                    fetched_at: Some(now.to_string()),
                    status: Some(*status),
                    content_sha256: clone_opt(&entry.content_sha256),
                    quotes: copy_quotes(&entry.quotes),
                    archives,
                },
                findings,
                writes: Vec::new(),
                failed: None,
            };
            assert(writes_of(o.writes@) =~= Seq::<WriteModel>::empty());
            Ok(o)
        },
        Some(Live::Page { status, digest, page }) => {
            let mut t = new_tally(entry, clone_texts(&entry.archives));
            assert(texts(entry.cited_by@).len() == entry.cited_by@.len());
            match settle_live_terms(
                all,
                web,
                opts,
                url,
                page.as_str(),
                &mut t,
                &entry.cited_by,
            ) {
                Ok(()) => {},
                Err(request) => {
                    return Err(request);
                },
            }
            Ok(
                Outcome {
                    entry: LockEntry {
                        cited_by,
                        fetched_at: Some(now.to_string()),
                        status: Some(*status),
                        content_sha256: Some(digest.clone()),
                        quotes: t.quotes,
                        archives: t.archives,
                    },
                    findings: t.findings,
                    writes: t.writes,
                    failed: None,
                },
            )
        },
    }
}

// ---------------------------------------------------------------------------
// All pages
// ---------------------------------------------------------------------------

/// A pass in progress: the lock as it is now, the findings, the pins to
/// write, the hosts known to be unreachable, and the place of the next page.
pub struct Pass {
    pub lock: Lock,
    pub findings: Vec<Finding>,
    pub writes: Vec<PinWrite>,
    pub down: Table<String>,
    pub next: usize,
}

/// A pass in progress.
pub struct PassModel {
    pub keys: Seq<Seq<char>>,
    pub lock: Map<Seq<char>, EntryModel>,
    pub findings: Seq<FindingModel>,
    pub writes: Seq<WriteModel>,
    pub down: Map<Seq<char>, Seq<char>>,
    pub next: nat,
}

impl View for Pass {
    type V = PassModel;

    open spec fn view(&self) -> PassModel {
        PassModel {
            keys: self.lock.keys(),
            lock: self.lock@,
            findings: findings_of(self.findings@),
            writes: writes_of(self.writes@),
            down: self.down@,
            next: self.next as nat,
        }
    }
}

/// The pass after a page.
pub open spec fn applied(p: PassModel, o: OutcomeModel) -> PassModel {
    PassModel {
        keys: p.keys,
        lock: p.lock.insert(p.keys[p.next as int], o.entry),
        findings: p.findings + o.findings,
        writes: p.writes + o.writes,
        down: o.down,
        next: p.next + 1,
    }
}

/// The pass after as many pages as what has been fetched allows, and what it
/// needs to go on; nothing when it is done.
pub open spec fn run_from(
    all: Seq<TermModel>,
    web: WebModel,
    archive_web: Seq<char>,
    now: Seq<char>,
    p: PassModel,
) -> (PassModel, Option<RequestModel>)
    decreases p.keys.len() - p.next,
{
    if p.next >= p.keys.len() {
        (p, None)
    } else {
        let url = p.keys[p.next as int];
        match entry_step(all, web, archive_web, now, url, p.lock[url], p.down) {
            Err(request) => (p, Some(request)),
            Ok(o) => run_from(all, web, archive_web, now, applied(p, o)),
        }
    }
}

fn append_findings(list: &mut Vec<Finding>, more: Vec<Finding>)
    ensures
        findings_of(final(list)@) == findings_of(old(list)@) + findings_of(more@),
{
    let ghost before = list@;
    let mut more = more;
    let ghost added = more@;
    list.append(&mut more);
    assert(findings_of(list@) =~= findings_of(before) + findings_of(added));
}

fn append_writes(list: &mut Vec<PinWrite>, more: Vec<PinWrite>)
    ensures
        writes_of(final(list)@) == writes_of(old(list)@) + writes_of(more@),
{
    let ghost before = list@;
    let mut more = more;
    let ghost added = more@;
    list.append(&mut more);
    assert(writes_of(list@) =~= writes_of(before) + writes_of(added));
}

impl Pass {
    /// A pass over the lock of the nodes, with nothing checked yet.
    pub fn start(all: &Vec<TermSources>, existing: Option<&Lock>) -> (r: Pass)
        ensures
            r@.lock == lock_of(all_sources(all@), opt_lock(existing)),
            strictly_ascending(r@.keys),
            forall|k: Seq<char>| #[trigger] r@.lock.dom().contains(k) <==> r@.keys.contains(k),
            r@.findings == Seq::<FindingModel>::empty(),
            r@.writes == Seq::<WriteModel>::empty(),
            r@.down == Map::<Seq<char>, Seq<char>>::empty(),
            r@.next == 0,
    {
        let lock = build_lock(all, existing);
        let _n: usize = lock.len();
        let r = Pass {
            lock,
            findings: Vec::new(),
            writes: Vec::new(),
            down: Table::new(),
            next: 0,
        };
        assert(findings_of(r.findings@) =~= Seq::<FindingModel>::empty());
        assert(writes_of(r.writes@) =~= Seq::<WriteModel>::empty());
        r
    }

    /// Goes on as far as what has been fetched allows. The result is what is
    /// needed next; nothing when the pass is done.
    pub fn advance(
        &mut self,
        all: &Vec<TermSources>,
        opts: &SourceOptions,
        now: &str,
        web: &Web,
    ) -> (r: Option<Request>)
        ensures
            run_from(all_sources(all@), web@, opts.archive_web@, now@, old(self)@) == (
                final(self)@,
                (match r {
                    Some(request) => Some(request@),
                    None => None,
                }),
            ),
    {
        let ghost start = self@;
        let ghost every = all_sources(all@);
        let ghost base = opts.archive_web@;
        loop
            invariant
                start == old(self)@,
                every == all_sources(all@),
                base == opts.archive_web@,
                run_from(every, web@, base, now@, self@) == run_from(
                    every,
                    web@,
                    base,
                    now@,
                    start,
                ),
            decreases self@.keys.len() - self@.next,
        {
            let n: usize = self.lock.len();
            if self.next >= n {
                return None;
            }
            let ghost before = self@;
            let ghost keys = self.lock.keys();
            let url = self.lock.key(self.next).clone();
            let entry = self.lock.value(self.next);
            match check_entry(all, web, opts, now, url.as_str(), entry, &self.down) {
                Err(request) => {
                    return Some(request);
                },
                Ok(o) => {
                    let ghost model = outcome_model(o, self.down@);
                    if let Some((site, reason)) = o.failed {
                        self.down.insert(site, reason);
                    }
                    self.lock.insert(url, o.entry);
                    append_findings(&mut self.findings, o.findings);
                    append_writes(&mut self.writes, o.writes);
                    self.next = self.next + 1;
                    proof {
                        assert forall|y: Seq<char>| self.lock.keys().contains(y) <==> #[trigger]
                            keys.contains(y) by {
                            assert(self.lock@.dom().contains(y) <==> before.lock.dom().contains(y));
                        }
                        lemma_strictly_ascending_unique(self.lock.keys(), keys);
                        assert(self@ == applied(before, model));
                    }
                },
            }
        }
    }
}

}
