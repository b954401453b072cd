//! What one citation of a page comes to: its verdicts, findings and pins.

use vstd::prelude::*;
use vstd::string::*;

use crate::commands::audit::{findings_of, lemma_push_finding, Finding, FindingModel};
use crate::commands::source_check::search::{
    exact_from, exact_pin, find_exact_pin, find_pins, first_exact, page_at, pages_of, pin_failure,
    pin_fetch_failed, pins_found, snapshot_page,
};
use crate::commands::source_check::urls::{clip, clipped};
use crate::commands::source_check::verdicts::{
    cover, covered, drifted, drifted_quotes, known_pins, lost, own_pins, pins_for, pins_known,
    quotes_for, quotes_of, still_missing, verdicts_of, verified, verify, word_of, worst_word,
    Status, StatusModel, Verdict, VerdictModel,
};
use crate::commands::source_check::web::{Request, RequestModel, SourceOptions, Web, WebModel};
use crate::commands::sources::{all_sources, TermModel, TermSources};
use crate::number::{decimal, decimal_text};
use crate::table::Table;
use crate::text::{
    add_new, append_new, clone_texts, contains_text, join, join_texts, lemma_push_text, opt_text,
    push_new, same, texts,
};

verus! {

/// Pins to write beside one node's anchor of `url`.
#[derive(Debug, Clone)]
pub struct PinWrite {
    pub term: String,
    pub url: String,
    pub pins: Vec<String>,
}

/// Pins to write beside one node's anchor of a page.
pub struct WriteModel {
    pub term: Seq<char>,
    pub url: Seq<char>,
    pub pins: Seq<Seq<char>>,
}

impl View for PinWrite {
    type V = WriteModel;

    open spec fn view(&self) -> WriteModel {
        WriteModel { term: self.term@, url: self.url@, pins: texts(self.pins@) }
    }
}

/// What a list of pins to write is.
pub open spec fn writes_of(list: Seq<PinWrite>) -> Seq<WriteModel> {
    Seq::new(list.len(), |i: int| list[i]@)
}

/// What the check of one page has come to so far: its pins, the status of
/// each term's quotes, the findings, and the pins to write.
pub struct Tally {
    pub archives: Vec<String>,
    pub quotes: Table<String>,
    pub findings: Vec<Finding>,
    pub writes: Vec<PinWrite>,
}

/// What the check of one page has come to so far.
pub struct TallyModel {
    pub archives: Seq<Seq<char>>,
    pub quotes: Map<Seq<char>, Seq<char>>,
    pub findings: Seq<FindingModel>,
    pub writes: Seq<WriteModel>,
}

impl View for Tally {
    type V = TallyModel;

    open spec fn view(&self) -> TallyModel {
        TallyModel {
            archives: texts(self.archives@),
            quotes: self.quotes@,
            findings: findings_of(self.findings@),
            writes: writes_of(self.writes@),
        }
    }
}

/// A finding of the source pass.
pub open spec fn source_finding(
    check: Seq<char>,
    severity: Seq<char>,
    term: Seq<char>,
    message: Seq<char>,
    fix: Option<Seq<char>>,
) -> FindingModel {
    FindingModel { class: "sources"@, check, severity, term, message, fix, fixed: false }
}

fn finding_of(
    check: &str,
    severity: &str,
    term: &str,
    message: String,
    fix: Option<String>,
) -> (r: Finding)
    ensures
        r@ == source_finding(check@, severity@, term@, message@, opt_text(fix)),
{
    Finding {
        class: "sources".to_string(),
        check: check.to_string(),
        severity: severity.to_string(),
        term: term.to_string(),
        message,
        fix,
        fixed: false,
    }
}

/// The tally with one more finding.
pub open spec fn with_finding(t: TallyModel, f: FindingModel) -> TallyModel {
    TallyModel { findings: t.findings.push(f), ..t }
}

/// The tally with one more list of pins to write.
pub open spec fn with_write(t: TallyModel, w: WriteModel) -> TallyModel {
    TallyModel { writes: t.writes.push(w), ..t }
}

impl Tally {
    /// Adds a finding.
    pub fn report(&mut self, f: Finding)
        ensures
            final(self)@ == with_finding(old(self)@, f@),
    {
        proof {
            lemma_push_finding(self.findings@, f);
        }
        self.findings.push(f);
    }

    /// Adds pins to write.
    pub fn write(&mut self, w: PinWrite)
        ensures
            final(self)@ == with_write(old(self)@, w@),
    {
        let ghost before = self.writes@;
        self.writes.push(w);
        assert(writes_of(self.writes@) =~= writes_of(before).push(w@));
    }
}

/// The safe resolution that is a pin beside the link.
pub open spec fn pin_fix(pins: Seq<char>) -> Seq<char> {
    "pin the archived copy "@ + pins + " beside the link"@
}

/// A passage as it is shown: cut short, between quotation marks.
pub open spec fn shown(passage: Seq<char>) -> Seq<char> {
    "\u{201c}"@ + clipped(passage) + "\u{201d}"@
}

fn fix_with_pins(pins: &str) -> (r: String)
    ensures
        r@ == pin_fix(pins@),
{
    let mut r = "pin the archived copy ".to_string();
    r.append(pins);
    r.append(" beside the link");
    r
}

fn show(passage: &str) -> (r: String)
    ensures
        r@ == shown(passage@),
{
    let mut r = "\u{201c}".to_string();
    r.append(clip(passage).as_str());
    r.append("\u{201d}");
    r
}

// ---------------------------------------------------------------------------
// Lost quotes
// ---------------------------------------------------------------------------

/// The verdicts after the first `n` of the known pins, which are read only
/// while something is missing.
pub open spec fn cover_known(
    web: WebModel,
    verdicts: Seq<VerdictModel>,
    known: Seq<Seq<char>>,
    n: nat,
) -> Result<Seq<VerdictModel>, RequestModel>
    decreases n,
{
    if n == 0 {
        Ok(verdicts)
    } else {
        match cover_known(web, verdicts, known, (n - 1) as nat) {
            Err(request) => Err(request),
            Ok(v) => if lost(v).len() == 0 {
                Ok(v)
            } else {
                match page_at(web, known[n - 1]) {
                    Err(request) => Err(request),
                    Ok(None) => Ok(v),
                    Ok(Some(page)) => Ok(covered(v, page, known[n - 1])),
                }
            },
        }
    }
}

/// The verdicts after the first `n` of the pins found.
pub open spec fn cover_found(
    verdicts: Seq<VerdictModel>,
    found: Seq<(Seq<char>, Seq<char>)>,
    n: nat,
) -> Seq<VerdictModel>
    decreases n,
{
    if n == 0 {
        verdicts
    } else {
        covered(cover_found(verdicts, found, (n - 1) as nat), found[n - 1].1, found[n - 1].0)
    }
}

/// The URLs of the pins found.
pub open spec fn found_pins(found: Seq<(Seq<char>, Seq<char>)>) -> Seq<Seq<char>> {
    Seq::new(found.len(), |i: int| found[i].0)
}

/// The verdicts and the pins of the page after the archive was searched for
/// what is still missing.
pub open spec fn searched(
    web: WebModel,
    archive_web: Seq<char>,
    url: Seq<char>,
    verdicts: Seq<VerdictModel>,
    archives: Seq<Seq<char>>,
) -> Result<(Seq<VerdictModel>, Seq<Seq<char>>), RequestModel> {
    if lost(verdicts).len() == 0 {
        Ok((verdicts, archives))
    } else {
        match pins_found(web, archive_web, url, lost(verdicts)) {
            Err(request) => Err(request),
            Ok(found) => Ok(
                (
                    cover_found(verdicts, found, found.len()),
                    append_new(archives, found_pins(found)),
                ),
            ),
        }
    }
}

/// A verdict needs this pin: the snapshot carried the quote and is not on the
/// node's own line.
pub open spec fn needs_pin(v: VerdictModel, own: Seq<Seq<char>>) -> bool {
    v.status matches StatusModel::Archived(pin) && !own.contains(pin)
}

/// Pins that carried a quote but are not on the node's line yet.
pub open spec fn needed(verdicts: Seq<VerdictModel>, own: Seq<Seq<char>>) -> Seq<Seq<char>>
    decreases verdicts.len(),
{
    if verdicts.len() == 0 {
        Seq::empty()
    } else if needs_pin(verdicts.last(), own) {
        push_new(needed(verdicts.drop_last(), own), verdicts.last().status->Archived_0)
    } else {
        needed(verdicts.drop_last(), own)
    }
}

/// The first quote that needs a pin.
pub open spec fn needing(verdicts: Seq<VerdictModel>, own: Seq<Seq<char>>) -> Seq<char>
    decreases verdicts.len(),
{
    if verdicts.len() == 0 {
        Seq::empty()
    } else if needed(verdicts.drop_last(), own).len() > 0 {
        needing(verdicts.drop_last(), own)
    } else if needs_pin(verdicts.last(), own) {
        verdicts.last().quote
    } else {
        Seq::empty()
    }
}

/// The tally after the pins that the node's line lacks were reported.
pub open spec fn report_needed(
    t: TallyModel,
    term: Seq<char>,
    url: Seq<char>,
    own: Seq<Seq<char>>,
    verdicts: Seq<VerdictModel>,
) -> TallyModel {
    let list = needed(verdicts, own);
    let pins = join(list, ", "@);
    if list.len() == 0 {
        t
    } else {
        with_write(
            with_finding(
                t,
                source_finding(
                    "quote_missing"@,
                    "error"@,
                    term,
                    "quoted passage no longer found on "@ + url + " but is in the snapshot "@ + pins
                        + ": "@ + shown(needing(verdicts, own)),
                    Some(pin_fix(pins)),
                ),
            ),
            WriteModel { term, url, pins: list },
        )
    }
}

/// The pins that could not be fetched, each with the reason.
pub open spec fn unread(web: WebModel, known: Seq<Seq<char>>) -> Seq<Seq<char>>
    decreases known.len(),
{
    if known.len() == 0 {
        Seq::empty()
    } else {
        match pin_failure(web, known.last()) {
            Some(why) => unread(web, known.drop_last()).push(known.last() + " ("@ + why + ")"@),
            None => unread(web, known.drop_last()),
        }
    }
}

/// How many lost quotes there are besides the one shown.
pub open spec fn more_lost(n: nat) -> Seq<char> {
    if n == 1 {
        Seq::empty()
    } else {
        " (+"@ + decimal((n - 1) as nat) + " more)"@
    }
}

/// The finding for quotes that were found nowhere. A pin whose own fetch
/// failed was never read, so it cannot be reported as a pin that does not
/// carry the passage.
pub open spec fn lost_finding(
    web: WebModel,
    term: Seq<char>,
    url: Seq<char>,
    known: Seq<Seq<char>>,
    pins: Seq<Seq<char>>,
    missing: Seq<Seq<char>>,
) -> FindingModel {
    let failed = unread(web, known);
    let passage = shown(missing[0]) + more_lost(missing.len());
    if failed.len() > 0 {
        source_finding(
            "pin_unreachable"@,
            "warning"@,
            term,
            "quoted passage is not on "@ + url + " and its pinned copy "@ + join(failed, ", "@)
                + " could not be fetched, so the pin was not checked: "@ + passage,
            None,
        )
    } else if pins.len() == 0 {
        source_finding(
            "quote_missing"@,
            "error"@,
            term,
            "quoted passage no longer found on "@ + url + ": "@ + passage,
            None,
        )
    } else {
        source_finding(
            "quote_missing"@,
            "error"@,
            term,
            "quoted passage found neither on "@ + url + " nor in its pinned copy "@ + join(
                pins,
                ", "@,
            ) + ": "@ + passage,
            None,
        )
    }
}

fn cover_with_known(web: &Web, verdicts: &mut Vec<Verdict>, known: &Vec<String>) -> (r: Result<
    (),
    Request,
>)
    ensures
        match r {
            Ok(()) => cover_known(
                web@,
                verdicts_of(old(verdicts)@),
                texts(known@),
                known@.len(),
            ) == Ok::<Seq<VerdictModel>, RequestModel>(verdicts_of(final(verdicts)@)),
            Err(request) => cover_known(
                web@,
                verdicts_of(old(verdicts)@),
                texts(known@),
                known@.len(),
            ) == Err::<Seq<VerdictModel>, RequestModel>(request@),
        },
{
    let ghost start = verdicts_of(verdicts@);
    let ghost all = texts(known@);
    for i in 0..known.len()
        invariant
            all == texts(known@),
            start == verdicts_of(old(verdicts)@),
            cover_known(web@, start, all, i as nat) == Ok::<Seq<VerdictModel>, RequestModel>(
                verdicts_of(verdicts@),
            ),
    {
        let left = still_missing(verdicts);
        assert(texts(left@).len() == left@.len());
        assert(all[i as int] == known@[i as int]@);
        if left.len() > 0 {
            match snapshot_page(web, known[i].as_str()) {
                Err(request) => {
                    proof {
                        lemma_cover_known_err(web@, start, all, (i + 1) as nat, all.len());
                    }
                    return Err(request);
                },
                Ok(None) => {},
                Ok(Some(page)) => {
                    cover(verdicts, page.as_str(), known[i].as_str());
                },
            }
        }
    }
    Ok(())
}

proof fn lemma_cover_known_err(
    web: WebModel,
    verdicts: Seq<VerdictModel>,
    known: Seq<Seq<char>>,
    n: nat,
    m: nat,
)
    requires
        n <= m,
        cover_known(web, verdicts, known, n) is Err,
    ensures
        cover_known(web, verdicts, known, m) == cover_known(web, verdicts, known, n),
    decreases m,
{
    if n < m {
        lemma_cover_known_err(web, verdicts, known, n, (m - 1) as nat);
    }
}

fn search_archive(
    web: &Web,
    opts: &SourceOptions,
    url: &str,
    verdicts: &mut Vec<Verdict>,
    archives: &mut Vec<String>,
) -> (r: Result<(), Request>)
    ensures
        match r {
            Ok(()) => searched(
                web@,
                opts.archive_web@,
                url@,
                verdicts_of(old(verdicts)@),
                texts(old(archives)@),
            ) == Ok::<(Seq<VerdictModel>, Seq<Seq<char>>), RequestModel>(
                (verdicts_of(final(verdicts)@), texts(final(archives)@)),
            ),
            Err(request) => searched(
                web@,
                opts.archive_web@,
                url@,
                verdicts_of(old(verdicts)@),
                texts(old(archives)@),
            ) == Err::<(Seq<VerdictModel>, Seq<Seq<char>>), RequestModel>(request@),
        },
{
    let ghost start = verdicts_of(verdicts@);
    let ghost pinned = texts(archives@);
    let left = still_missing(verdicts);
    assert(texts(left@).len() == left@.len());
    if left.len() == 0 {
        return Ok(());
    }
    match find_pins(web, opts, url, &left) {
        Err(request) => Err(request),
        Ok(found) => {
            let ghost all = pages_of(found@);
            let ghost names = found_pins(all);
            assert(append_new(pinned, names.take(0)) == pinned);
            for i in 0..found.len()
                invariant
                    all == pages_of(found@),
                    names == found_pins(all),
                    verdicts_of(verdicts@) == cover_found(start, all, i as nat),
                    texts(archives@) == append_new(pinned, names.take(i as int)),
            {
                assert(names.take(i + 1).drop_last() == names.take(i as int));
                assert(names.take(i + 1).last() == found@[i as int].0@);
                assert(all[i as int] == (found@[i as int].0@, found@[i as int].1@));
                cover(verdicts, found[i].1.as_str(), found[i].0.as_str());
                add_new(archives, &found[i].0);
            }
            assert(names.take(found@.len() as int) == names);
            Ok(())
        },
    }
}

fn tell_needed(t: &mut Tally, term: &str, url: &str, own: &Vec<String>, verdicts: &Vec<Verdict>)
    ensures
        final(t)@ == report_needed(
            old(t)@,
            term@,
            url@,
            texts(own@),
            verdicts_of(verdicts@),
        ),
{
    let ghost all = verdicts_of(verdicts@);
    let ghost mine = texts(own@);
    let mut list: Vec<String> = Vec::new();
    let mut example = String::new();
    assert(texts(list@) =~= needed(all.take(0), mine));
    for i in 0..verdicts.len()
        invariant
            all == verdicts_of(verdicts@),
            mine == texts(own@),
            texts(list@) == needed(all.take(i as int), mine),
            example@ == needing(all.take(i as int), mine),
    {
        assert(all.take(i + 1).drop_last() == all.take(i as int));
        assert(all.take(i + 1).last() == verdicts@[i as int]@);
        assert(texts(list@).len() == list@.len());
        if let Status::Archived(pin) = &verdicts[i].status {
            if !contains_text(own, pin.as_str()) {
                if list.len() == 0 {
                    example = verdicts[i].quote.clone();
                }
                add_new(&mut list, pin);
            }
        }
        proof {
            lemma_needing(all.take(i as int), mine);
        }
    }
    assert(all.take(verdicts@.len() as int) == all);
    assert(texts(list@).len() == list@.len());
    if list.len() > 0 {
        let pins = join_texts(&list, ", ");
        let mut message = "quoted passage no longer found on ".to_string();
        message.append(url);
        message.append(" but is in the snapshot ");
        message.append(pins.as_str());
        message.append(": ");
        message.append(show(example.as_str()).as_str());
        t.report(
            finding_of(
                "quote_missing",
                "error",
                term,
                message,
                Some(fix_with_pins(pins.as_str())),
            ),
        );
        t.write(PinWrite { term: term.to_string(), url: url.to_string(), pins: list });
    }
}

/// Where no pin is needed no quote needs one.
proof fn lemma_needing(verdicts: Seq<VerdictModel>, own: Seq<Seq<char>>)
    ensures
        needed(verdicts, own).len() == 0 ==> needing(verdicts, own).len() == 0,
    decreases verdicts.len(),
{
    if verdicts.len() > 0 {
        lemma_needing(verdicts.drop_last(), own);
    }
}

fn unread_pins(web: &Web, known: &Vec<String>) -> (r: Vec<String>)
    ensures
        texts(r@) == unread(web@, texts(known@)),
{
    let ghost all = texts(known@);
    let mut r: Vec<String> = Vec::new();
    assert(texts(r@) =~= unread(web@, all.take(0)));
    for i in 0..known.len()
        invariant
            all == texts(known@),
            texts(r@) == unread(web@, all.take(i as int)),
    {
        assert(all.take(i + 1).drop_last() == all.take(i as int));
        assert(all.take(i + 1).last() == known@[i as int]@);
        if let Some(why) = pin_fetch_failed(web, known[i].as_str()) {
            let mut s = known[i].clone();
            s.append(" (");
            s.append(why.as_str());
            s.append(")");
            proof {
                lemma_push_text(r@, s);
            }
            r.push(s);
        }
    }
    assert(all.take(known@.len() as int) == all);
    r
}

fn lost_report(
    web: &Web,
    term: &str,
    url: &str,
    known: &Vec<String>,
    pins: &Vec<String>,
    missing: &Vec<String>,
) -> (r: Finding)
    requires
        missing@.len() > 0,
    ensures
        r@ == lost_finding(
            web@,
            term@,
            url@,
            texts(known@),
            texts(pins@),
            texts(missing@),
        ),
{
    let failed = unread_pins(web, known);
    assert(texts(failed@).len() == failed@.len());
    let mut passage = show(missing[0].as_str());
    let mut more = String::new();
    if missing.len() != 1 {
        more = " (+".to_string();
        more.append(decimal_text((missing.len() - 1) as u64).as_str());
        more.append(" more)");
    }
    assert(more@ =~= more_lost(missing@.len()));
    passage.append(more.as_str());
    if failed.len() > 0 {
        let mut message = "quoted passage is not on ".to_string();
        message.append(url);
        message.append(" and its pinned copy ");
        message.append(join_texts(&failed, ", ").as_str());
        message.append(" could not be fetched, so the pin was not checked: ");
        message.append(passage.as_str());
        finding_of("pin_unreachable", "warning", term, message, None)
    } else if pins.len() == 0 {
        let mut message = "quoted passage no longer found on ".to_string();
        message.append(url);
        message.append(": ");
        message.append(passage.as_str());
        finding_of("quote_missing", "error", term, message, None)
    } else {
        let mut message = "quoted passage found neither on ".to_string();
        message.append(url);
        message.append(" nor in its pinned copy ");
        message.append(join_texts(pins, ", ").as_str());
        message.append(": ");
        message.append(passage.as_str());
        finding_of("quote_missing", "error", term, message, None)
    }
}

// ---------------------------------------------------------------------------
// Drifted quotes
// ---------------------------------------------------------------------------

/// What the search for verbatim copies of drifted quotes has come to: the
/// page's pins, the pins found now, the quote of the last of them, the first
/// quote without one, and the pin of each quote that has one.
pub struct Drift {
    pub archives: Seq<Seq<char>>,
    pub fresh: Seq<Seq<char>>,
    pub anchored: Seq<char>,
    pub adrift: Option<Seq<char>>,
    pub pinned: Seq<(Seq<char>, Seq<char>)>,
}

/// The search after one more drifted quote: the node's own pins first, then
/// the archive.
pub open spec fn drift_step(
    web: WebModel,
    archive_web: Seq<char>,
    url: Seq<char>,
    own: Seq<Seq<char>>,
    d: Drift,
    quote: Seq<char>,
) -> Result<Drift, RequestModel> {
    match exact_from(web, own, quote, 0) {
        Err(request) => Err(request),
        Ok(Some(pin)) => Ok(Drift { pinned: d.pinned.push((quote, pin)), ..d }),
        Ok(None) => match exact_pin(web, archive_web, url, quote) {
            Err(request) => Err(request),
            Ok(Some(pin)) => Ok(
                Drift {
                    archives: push_new(d.archives, pin),
                    fresh: push_new(d.fresh, pin),
                    anchored: if d.fresh.contains(pin) {
                        d.anchored
                    } else {
                        quote
                    },
                    adrift: d.adrift,
                    pinned: d.pinned.push((quote, pin)),
                },
            ),
            Ok(None) => Ok(
                Drift {
                    adrift: match d.adrift {
                        Some(first) => Some(first),
                        None => Some(quote),
                    },
                    ..d
                },
            ),
        },
    }
}

/// The search after the first `n` drifted quotes.
pub open spec fn drift_all(
    web: WebModel,
    archive_web: Seq<char>,
    url: Seq<char>,
    own: Seq<Seq<char>>,
    archives: Seq<Seq<char>>,
    quotes: Seq<Seq<char>>,
    n: nat,
) -> Result<Drift, RequestModel>
    decreases n,
{
    if n == 0 {
        Ok(
            Drift {
                archives,
                fresh: Seq::empty(),
                anchored: Seq::empty(),
                adrift: None,
                pinned: Seq::empty(),
            },
        )
    } else {
        match drift_all(web, archive_web, url, own, archives, quotes, (n - 1) as nat) {
            Err(request) => Err(request),
            Ok(d) => drift_step(web, archive_web, url, own, d, quotes[n - 1]),
        }
    }
}

/// The pin of a quote: the first one given for it.
pub open spec fn pin_of(pinned: Seq<(Seq<char>, Seq<char>)>, quote: Seq<char>) -> Option<Seq<char>>
    decreases pinned.len(),
{
    if pinned.len() == 0 {
        None
    } else {
        match pin_of(pinned.drop_last(), quote) {
            Some(pin) => Some(pin),
            None => if pinned.last().0 == quote {
                Some(pinned.last().1)
            } else {
                None
            },
        }
    }
}

/// A verdict once drifted quotes have pins.
pub open spec fn pinned_verdict(
    v: VerdictModel,
    pinned: Seq<(Seq<char>, Seq<char>)>,
) -> VerdictModel {
    match pin_of(pinned, v.quote) {
        Some(pin) => VerdictModel { quote: v.quote, status: StatusModel::Pinned(pin) },
        None => v,
    }
}

/// Verdicts once drifted quotes have pins.
pub open spec fn pinned_verdicts(
    verdicts: Seq<VerdictModel>,
    pinned: Seq<(Seq<char>, Seq<char>)>,
) -> Seq<VerdictModel> {
    Seq::new(verdicts.len(), |i: int| pinned_verdict(verdicts[i], pinned))
}

/// The tally after pins found for drifted quotes were reported.
pub open spec fn report_fresh(
    t: TallyModel,
    term: Seq<char>,
    url: Seq<char>,
    d: Drift,
) -> TallyModel {
    let pins = join(d.fresh, ", "@);
    if d.fresh.len() == 0 {
        t
    } else {
        with_write(
            with_finding(
                t,
                source_finding(
                    "quote_moved"@,
                    "warning"@,
                    term,
                    "quoted passage on "@ + url
                        + " has changed but still matches; the snapshot "@ + pins
                        + " carries it verbatim: "@ + shown(d.anchored),
                    Some(pin_fix(pins)),
                ),
            ),
            WriteModel { term, url, pins: d.fresh },
        )
    }
}

/// The tally after a drifted quote without a pin was reported.
pub open spec fn report_adrift(
    t: TallyModel,
    term: Seq<char>,
    url: Seq<char>,
    d: Drift,
) -> TallyModel {
    match d.adrift {
        None => t,
        Some(quote) => with_finding(
            t,
            source_finding(
                "quote_moved"@,
                "warning"@,
                term,
                "quoted passage on "@ + url
                    + " has changed but still matches, and no snapshot carries it verbatim: "@
                    + shown(quote),
                None,
            ),
        ),
    }
}

/// The tally after the quotes that the live page has drifted from. The pin is
/// the citation of record: if one beside the link carries the passage
/// verbatim, there is nothing to report. Otherwise a snapshot that does is
/// looked for and offered.
pub open spec fn drift_term(
    web: WebModel,
    archive_web: Seq<char>,
    url: Seq<char>,
    own: Seq<Seq<char>>,
    t: TallyModel,
    term: Seq<char>,
    verdicts: Seq<VerdictModel>,
) -> Result<TallyModel, RequestModel> {
    let quotes = drifted(verdicts);
    match drift_all(web, archive_web, url, own, t.archives, quotes, quotes.len()) {
        Err(request) => Err(request),
        Ok(d) => Ok(
            report_adrift(
                report_fresh(
                    TallyModel {
                        archives: d.archives,
                        quotes: t.quotes.insert(
                            term,
                            word_of(pinned_verdicts(verdicts, d.pinned)),
                        ),
                        ..t
                    },
                    term,
                    url,
                    d,
                ),
                term,
                url,
                d,
            ),
        ),
    }
}

/// What the search for verbatim copies has come to.
struct Drifting {
    archives: Vec<String>,
    fresh: Vec<String>,
    anchored: String,
    adrift: Option<String>,
    pinned: Vec<(String, String)>,
}

impl View for Drifting {
    type V = Drift;

    closed spec fn view(&self) -> Drift {
        Drift {
            archives: texts(self.archives@),
            fresh: texts(self.fresh@),
            anchored: self.anchored@,
            adrift: opt_text(self.adrift),
            pinned: pages_of(self.pinned@),
        }
    }
}

fn push_pinned(list: &mut Vec<(String, String)>, quote: &str, pin: String)
    ensures
        pages_of(final(list)@) == pages_of(old(list)@).push((quote@, pin@)),
{
    let ghost before = list@;
    list.push((quote.to_string(), pin));
    assert(pages_of(list@) =~= pages_of(before).push((quote@, pin@)));
}

fn drift_one(
    web: &Web,
    opts: &SourceOptions,
    url: &str,
    own: &Vec<String>,
    d: &mut Drifting,
    quote: &str,
) -> (r: Result<(), Request>)
    ensures
        match r {
            Ok(()) => drift_step(
                web@,
                opts.archive_web@,
                url@,
                texts(own@),
                old(d)@,
                quote@,
            ) == Ok::<Drift, RequestModel>(final(d)@),
            Err(request) => drift_step(
                web@,
                opts.archive_web@,
                url@,
                texts(own@),
                old(d)@,
                quote@,
            ) == Err::<Drift, RequestModel>(request@),
        },
{
    match first_exact(web, own, quote) {
        Err(request) => Err(request),
        Ok(Some(pin)) => {
            push_pinned(&mut d.pinned, quote, pin);
            Ok(())
        },
        Ok(None) => match find_exact_pin(web, opts, url, quote) {
            Err(request) => Err(request),
            Ok(Some(pin)) => {
                add_new(&mut d.archives, &pin);
                if !contains_text(&d.fresh, pin.as_str()) {
                    d.anchored = quote.to_string();
                }
                add_new(&mut d.fresh, &pin);
                push_pinned(&mut d.pinned, quote, pin);
                Ok(())
            },
            Ok(None) => {
                if d.adrift.is_none() {
                    d.adrift = Some(quote.to_string());
                }
                Ok(())
            },
        },
    }
}

proof fn lemma_drift_err(
    web: WebModel,
    archive_web: Seq<char>,
    url: Seq<char>,
    own: Seq<Seq<char>>,
    archives: Seq<Seq<char>>,
    quotes: Seq<Seq<char>>,
    n: nat,
    m: nat,
)
    requires
        n <= m,
        drift_all(web, archive_web, url, own, archives, quotes, n) is Err,
    ensures
        drift_all(web, archive_web, url, own, archives, quotes, m) == drift_all(
            web,
            archive_web,
            url,
            own,
            archives,
            quotes,
            n,
        ),
    decreases m,
{
    if n < m {
        lemma_drift_err(web, archive_web, url, own, archives, quotes, n, (m - 1) as nat);
    }
}

fn find_pin_of(pinned: &Vec<(String, String)>, quote: &str) -> (r: Option<usize>)
    ensures
        r is Some <==> pin_of(pages_of(pinned@), quote@) is Some,
        r matches Some(i) ==> i < pinned@.len() && pin_of(pages_of(pinned@), quote@) == Some(
            pinned@[i as int].1@,
        ),
{
    let ghost all = pages_of(pinned@);
    assert(all.take(0) =~= Seq::<(Seq<char>, Seq<char>)>::empty());
    for i in 0..pinned.len()
        invariant
            all == pages_of(pinned@),
            pin_of(all.take(i as int), quote@) is None,
    {
        assert(all.take(i + 1).drop_last() == all.take(i as int));
        assert(all.take(i + 1).last() == (pinned@[i as int].0@, pinned@[i as int].1@));
        if same(pinned[i].0.as_str(), quote) {
            proof {
                assert(pin_of(all.take(i + 1), quote@) == Some(pinned@[i as int].1@));
                lemma_pin_of(all, quote@, i + 1);
            }
            return Some(i);
        }
    }
    assert(all.take(pinned@.len() as int) == all);
    None
}

proof fn lemma_pin_of(pinned: Seq<(Seq<char>, Seq<char>)>, quote: Seq<char>, n: int)
    requires
        0 <= n <= pinned.len(),
        pin_of(pinned.take(n), quote) is Some,
    ensures
        pin_of(pinned, quote) == pin_of(pinned.take(n), quote),
    decreases pinned.len(),
{
    if n < pinned.len() {
        assert(pinned.drop_last().take(n) == pinned.take(n));
        lemma_pin_of(pinned.drop_last(), quote, n);
    } else {
        assert(pinned.take(n) == pinned);
    }
}

fn mark_pinned(verdicts: &mut Vec<Verdict>, pinned: &Vec<(String, String)>)
    ensures
        verdicts_of(final(verdicts)@) == pinned_verdicts(
            verdicts_of(old(verdicts)@),
            pages_of(pinned@),
        ),
{
    let ghost start = verdicts_of(verdicts@);
    let ghost pairs = pages_of(pinned@);
    let n: usize = verdicts.len();
    for i in 0..n
        invariant
            n == verdicts@.len(),
            start.len() == n,
            pairs == pages_of(pinned@),
            forall|k: int|
                0 <= k < i ==> (#[trigger] verdicts@[k])@ == pinned_verdict(start[k], pairs),
            forall|k: int| i <= k < n ==> (#[trigger] verdicts@[k])@ == start[k],
    {
        assert(verdicts@[i as int]@ == start[i as int]);
        if let Some(k) = find_pin_of(pinned, verdicts[i].quote.as_str()) {
            let quote = verdicts[i].quote.clone();
            verdicts.set(i, Verdict { quote, status: Status::Pinned(pinned[k].1.clone()) });
        }
    }
    assert(verdicts_of(verdicts@) =~= pinned_verdicts(start, pairs));
}

fn settle_drift(
    web: &Web,
    opts: &SourceOptions,
    url: &str,
    own: &Vec<String>,
    t: &mut Tally,
    term: &str,
    verdicts: &mut Vec<Verdict>,
) -> (r: Result<(), Request>)
    ensures
        match r {
            Ok(()) => drift_term(
                web@,
                opts.archive_web@,
                url@,
                texts(own@),
                old(t)@,
                term@,
                verdicts_of(old(verdicts)@),
            ) == Ok::<TallyModel, RequestModel>(final(t)@),
            Err(request) => drift_term(
                web@,
                opts.archive_web@,
                url@,
                texts(own@),
                old(t)@,
                term@,
                verdicts_of(old(verdicts)@),
            ) == Err::<TallyModel, RequestModel>(request@),
        },
{
    let ghost start = t@;
    let quotes = drifted_quotes(verdicts);
    let ghost list = texts(quotes@);
    let ghost base = opts.archive_web@;
    let ghost mine = texts(own@);
    let mut d = Drifting {
        archives: clone_texts(&t.archives),
        fresh: Vec::new(),
        anchored: String::new(),
        adrift: None,
        pinned: Vec::new(),
    };
    assert(d@ == drift_all(web@, base, url@, mine, start.archives, list, 0)->Ok_0) by {
        assert(texts(d.fresh@) =~= Seq::<Seq<char>>::empty());
        assert(pages_of(d.pinned@) =~= Seq::<(Seq<char>, Seq<char>)>::empty());
        assert(d.anchored@ =~= Seq::<char>::empty());
    }
    for i in 0..quotes.len()
        invariant
            list == texts(quotes@),
            base == opts.archive_web@,
            mine == texts(own@),
            start == old(t)@,
            list == drifted(verdicts_of(old(verdicts)@)),
            drift_all(web@, base, url@, mine, start.archives, list, i as nat) == Ok::<
                Drift,
                RequestModel,
            >(d@),
    {
        assert(list[i as int] == quotes@[i as int]@);
        match drift_one(web, opts, url, own, &mut d, quotes[i].as_str()) {
            Ok(()) => {},
            Err(request) => {
                proof {
                    lemma_drift_err(
                        web@,
                        base,
                        url@,
                        mine,
                        start.archives,
                        list,
                        (i + 1) as nat,
                        list.len(),
                    );
                }
                return Err(request);
            },
        }
    }
    let ghost done = d@;
    mark_pinned(verdicts, &d.pinned);
    t.archives = d.archives;
    t.quotes.insert(term.to_string(), worst_word(verdicts));
    assert(texts(d.fresh@).len() == d.fresh@.len());
    if d.fresh.len() > 0 {
        let pins = join_texts(&d.fresh, ", ");
        let mut message = "quoted passage on ".to_string();
        message.append(url);
        message.append(" has changed but still matches; the snapshot ");
        message.append(pins.as_str());
        message.append(" carries it verbatim: ");
        message.append(show(d.anchored.as_str()).as_str());
        t.report(
            finding_of(
                "quote_moved",
                "warning",
                term,
                message,
                Some(fix_with_pins(pins.as_str())),
            ),
        );
        t.write(PinWrite { term: term.to_string(), url: url.to_string(), pins: d.fresh });
    }
    if let Some(quote) = d.adrift {
        let mut message = "quoted passage on ".to_string();
        message.append(url);
        message.append(" has changed but still matches, and no snapshot carries it verbatim: ");
        message.append(show(quote.as_str()).as_str());
        t.report(finding_of("quote_moved", "warning", term, message, None));
    }
    Ok(())
}

// ---------------------------------------------------------------------------
// One citing term
// ---------------------------------------------------------------------------

/// The tally of a page that answered after one citing term. Each quote is
/// verified against the live page first, then the pins on the node's own
/// line, then the page's other pins, and only then is the archive searched
/// for what is still missing.
pub open spec fn live_term(
    all: Seq<TermModel>,
    web: WebModel,
    archive_web: Seq<char>,
    url: Seq<char>,
    page: Seq<char>,
    t: TallyModel,
    term: Seq<char>,
) -> Result<TallyModel, RequestModel> {
    let own = own_pins(all, term, url);
    let known = known_pins(own, t.archives);
    match cover_known(web, verified(page, quotes_of(all, term, url)), known, known.len()) {
        Err(request) => Err(request),
        Ok(first) => match searched(web, archive_web, url, first, t.archives) {
            Err(request) => Err(request),
            Ok((verdicts, archives)) => {
                let told = report_needed(
                    TallyModel {
                        archives,
                        quotes: t.quotes.insert(term, word_of(verdicts)),
                        ..t
                    },
                    term,
                    url,
                    own,
                    verdicts,
                );
                if lost(verdicts).len() > 0 {
                    Ok(
                        with_finding(
                            told,
                            lost_finding(
                                web,
                                term,
                                url,
                                known,
                                known_pins(own, archives),
                                lost(verdicts),
                            ),
                        ),
                    )
                } else {
                    drift_term(web, archive_web, url, own, told, term, verdicts)
                }
            },
        },
    }
}

/// Settles one citing term of a page that answered.
pub fn settle_live(
    all: &Vec<TermSources>,
    web: &Web,
    opts: &SourceOptions,
    url: &str,
    page: &str,
    t: &mut Tally,
    term: &str,
) -> (r: Result<(), Request>)
    ensures
        match r {
            Ok(()) => live_term(
                all_sources(all@),
                web@,
                opts.archive_web@,
                url@,
                page@,
                old(t)@,
                term@,
            ) == Ok::<TallyModel, RequestModel>(final(t)@),
            Err(request) => live_term(
                all_sources(all@),
                web@,
                opts.archive_web@,
                url@,
                page@,
                old(t)@,
                term@,
            ) == Err::<TallyModel, RequestModel>(request@),
        },
{
    let quotes = quotes_for(all, term, url);
    let own = pins_for(all, term, url);
    let known = pins_known(&own, &t.archives);
    let mut verdicts = verify(page, &quotes);
    match cover_with_known(web, &mut verdicts, &known) {
        Ok(()) => {},
        Err(request) => {
            return Err(request);
        },
    }
    let mut archives = clone_texts(&t.archives);
    match search_archive(web, opts, url, &mut verdicts, &mut archives) {
        Ok(()) => {},
        Err(request) => {
            return Err(request);
        },
    }
    t.archives = archives;
    t.quotes.insert(term.to_string(), worst_word(&verdicts));
    tell_needed(t, term, url, &own, &verdicts);
    let missing = still_missing(&verdicts);
    assert(texts(missing@).len() == missing@.len());
    if missing.len() > 0 {
        let pins = pins_known(&own, &t.archives);
        let f = lost_report(web, term, url, &known, &pins, &missing);
        t.report(f);
        Ok(())
    } else {
        settle_drift(web, opts, url, &own, t, term, &mut verdicts)
    }
}

/// The first pin of a list, from the `k`-th on, that is not among `own` and
/// could be read.
pub open spec fn offer_from(
    web: WebModel,
    archives: Seq<Seq<char>>,
    own: Seq<Seq<char>>,
    k: nat,
) -> Result<Option<Seq<char>>, RequestModel>
    decreases archives.len() - k,
{
    if k >= archives.len() {
        Ok(None)
    } else if own.contains(archives[k as int]) {
        offer_from(web, archives, own, k + 1)
    } else {
        match page_at(web, archives[k as int]) {
            Err(request) => Err(request),
            Ok(Some(_)) => Ok(Some(archives[k as int])),
            Ok(None) => offer_from(web, archives, own, k + 1),
        }
    }
}

/// The tally of a page whose host is unreachable after one citing term. A pin
/// beside the link that can be read keeps the citation verifiable; otherwise
/// a readable copy is offered when there is one.
pub open spec fn unreachable_term(
    all: Seq<TermModel>,
    web: WebModel,
    url: Seq<char>,
    host: Seq<char>,
    reason: Seq<char>,
    t: TallyModel,
    term: Seq<char>,
) -> Result<TallyModel, RequestModel> {
    let own = own_pins(all, term, url);
    let stem = "host "@ + host + " is unreachable ("@ + reason;
    match offer_from(web, own, Seq::empty(), 0) {
        Err(request) => Err(request),
        Ok(Some(_)) => Ok(t),
        Ok(None) => match offer_from(web, t.archives, own, 0) {
            Err(request) => Err(request),
            Ok(Some(pin)) => Ok(
                with_write(
                    with_finding(
                        t,
                        source_finding(
                            "unreachable_host"@,
                            "warning"@,
                            term,
                            stem + "); the archived copy "@ + pin + " still carries this source"@,
                            Some(pin_fix(pin)),
                        ),
                    ),
                    WriteModel { term, url, pins: seq![pin] },
                ),
            ),
            Ok(None) => Ok(
                with_finding(
                    t,
                    source_finding(
                        "unreachable_host"@,
                        "warning"@,
                        term,
                        stem + "); its sources were skipped"@,
                        None,
                    ),
                ),
            ),
        },
    }
}

fn readable_pin(web: &Web, archives: &Vec<String>, own: &Vec<String>) -> (r: Result<
    Option<String>,
    Request,
>)
    ensures
        match r {
            Ok(pin) => offer_from(web@, texts(archives@), texts(own@), 0) == Ok::<
                Option<Seq<char>>,
                RequestModel,
            >(opt_text(pin)),
            Err(request) => offer_from(web@, texts(archives@), texts(own@), 0) == Err::<
                Option<Seq<char>>,
                RequestModel,
            >(request@),
        },
{
    let ghost all = texts(archives@);
    let ghost mine = texts(own@);
    for k in 0..archives.len()
        invariant
            all == texts(archives@),
            mine == texts(own@),
            offer_from(web@, all, mine, 0) == offer_from(web@, all, mine, k as nat),
    {
        assert(all[k as int] == archives@[k as int]@);
        if !contains_text(own, archives[k].as_str()) {
            match snapshot_page(web, archives[k].as_str()) {
                Err(request) => {
                    return Err(request);
                },
                Ok(Some(_)) => {
                    return Ok(Some(archives[k].clone()));
                },
                Ok(None) => {},
            }
        }
    }
    Ok(None)
}

/// Settles one citing term of a page whose host is unreachable.
pub fn settle_unreachable(
    all: &Vec<TermSources>,
    web: &Web,
    url: &str,
    host: &str,
    reason: &str,
    t: &mut Tally,
    term: &str,
) -> (r: Result<(), Request>)
    ensures
        match r {
            Ok(()) => unreachable_term(
                all_sources(all@),
                web@,
                url@,
                host@,
                reason@,
                old(t)@,
                term@,
            ) == Ok::<TallyModel, RequestModel>(final(t)@),
            Err(request) => unreachable_term(
                all_sources(all@),
                web@,
                url@,
                host@,
                reason@,
                old(t)@,
                term@,
            ) == Err::<TallyModel, RequestModel>(request@),
        },
{
    let own = pins_for(all, term, url);
    let none: Vec<String> = Vec::new();
    assert(texts(none@) =~= Seq::<Seq<char>>::empty());
    match readable_pin(web, &own, &none) {
        Err(request) => {
            return Err(request);
        },
        Ok(Some(_)) => {
            return Ok(());
        },
        Ok(None) => {},
    }
    let mut message = "host ".to_string();
    message.append(host);
    message.append(" is unreachable (");
    message.append(reason);
    match readable_pin(web, &t.archives, &own) {
        Err(request) => Err(request),
        Ok(Some(pin)) => {
            message.append("); the archived copy ");
            message.append(pin.as_str());
            message.append(" still carries this source");
            let fix = fix_with_pins(pin.as_str());
            t.report(finding_of("unreachable_host", "warning", term, message, Some(fix)));
            let ghost text = pin@;
            let mut pins: Vec<String> = Vec::new();
            pins.push(pin);
            assert(texts(pins@) =~= seq![text]);
            t.write(PinWrite { term: term.to_string(), url: url.to_string(), pins });
            Ok(())
        },
        Ok(None) => {
            message.append("); its sources were skipped");
            t.report(finding_of("unreachable_host", "warning", term, message, None));
            Ok(())
        },
    }
}

}
