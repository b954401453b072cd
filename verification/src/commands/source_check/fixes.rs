//! The resolutions of the source pass that are applied to the nodes.

use vstd::prelude::*;
use vstd::string::*;

use crate::commands::audit::{findings_of, Finding, FindingModel};
use crate::commands::source_check::snapshots::{date_in_url, snapshot_date};
use crate::commands::source_check::term::{writes_of, PinWrite, WriteModel};
use crate::commands::sources::{archived_original, original, page_key, same_page, EntryModel, Lock};
use crate::markdown::{files, FileModel, NodeFile};
use crate::pattern::{
    find_matches, group, group_text, hits, lemma_first_hit, regex_matches, Hit, Matches,
    LEADING_ANCHOR,
};
use crate::text::{
    append_chars, chars_of, contains, count_until, ends, ends_with, find, first_of, has, head,
    lemma_first_of, lemma_push_text, lemma_until, replace, replaced, same, tail, text_of, texts, until,
};

verus! {

/// The nodes and the findings while resolutions are applied.
pub struct FixModel {
    pub files: Seq<FileModel>,
    pub findings: Seq<FindingModel>,
}

/// The place of the first node of a term.
pub open spec fn file_index(all: Seq<FileModel>, term: Seq<char>) -> Option<int>
    decreases all.len(),
{
    if all.len() == 0 {
        None
    } else {
        match file_index(all.drop_last(), term) {
            Some(i) => Some(i),
            None => if all.last().term == term {
                Some(all.len() - 1)
            } else {
                None
            },
        }
    }
}

fn find_file(all: &Vec<NodeFile>, term: &str) -> (r: Option<usize>)
    ensures
        r is Some <==> file_index(files(all@), term@) is Some,
        r matches Some(i) ==> i < all@.len() && file_index(files(all@), term@) == Some(i as int),
{
    let ghost every = files(all@);
    assert(every.take(0) =~= Seq::<FileModel>::empty());
    for i in 0..all.len()
        invariant
            every == files(all@),
            file_index(every.take(i as int), term@) is None,
    {
        assert(every.take(i + 1).drop_last() == every.take(i as int));
        assert(every.take(i + 1).last() == all@[i as int]@);
        if same(all[i].term.as_str(), term) {
            proof {
                assert(file_index(every.take(i + 1), term@) == Some(i as int));
                lemma_file_index(every, term@, i + 1);
            }
            return Some(i);
        }
    }
    assert(every.take(all@.len() as int) == every);
    None
}

proof fn lemma_file_index(all: Seq<FileModel>, term: Seq<char>, n: int)
    requires
        0 <= n <= all.len(),
        file_index(all.take(n), term) is Some,
    ensures
        file_index(all, term) == file_index(all.take(n), term),
    decreases all.len(),
{
    if n < all.len() {
        assert(all.drop_last().take(n) == all.take(n));
        lemma_file_index(all.drop_last(), term, n);
    } else {
        assert(all.take(n) == all);
    }
}

/// The attribute of an anchor that links to a URL.
pub open spec fn href(url: Seq<char>) -> Seq<char> {
    "href=\""@ + url + "\""@
}

fn href_text(url: &str) -> (r: String)
    ensures
        r@ == href(url@),
        r@.len() > 0,
{
    let mut r = "href=\"".to_string();
    r.append(url);
    r.append("\"");
    proof {
        reveal_strlit("href=\"");
    }
    r
}

fn set_content(all: &mut Vec<NodeFile>, i: usize, content: String)
    requires
        i < old(all)@.len(),
    ensures
        files(final(all)@) == files(old(all)@).update(
            i as int,
            FileModel { term: files(old(all)@)[i as int].term, content: content@ },
        ),
{
    let ghost before = all@;
    let term = all[i].term.clone();
    all.set(i, NodeFile { term, content });
    assert(files(all@) =~= files(before).update(i as int, all@[i as int]@));
}

// ---------------------------------------------------------------------------
// Dead links
// ---------------------------------------------------------------------------

/// A finding once the dead link of a term was replaced.
pub open spec fn dead_mark(f: FindingModel, term: Seq<char>, url: Seq<char>) -> FindingModel {
    if f.check == "dead_link"@ && f.term == term && has(f.message, url) {
        FindingModel { fixed: true, ..f }
    } else {
        f
    }
}

/// The findings once the dead link of a term was replaced.
pub open spec fn dead_marks(
    findings: Seq<FindingModel>,
    term: Seq<char>,
    url: Seq<char>,
) -> Seq<FindingModel> {
    Seq::new(findings.len(), |i: int| dead_mark(findings[i], term, url))
}

/// The nodes and findings once a dead link was replaced in the node of a term:
/// every `href` of the dead page becomes one of the archived copy.
pub open spec fn dead_fix(
    s: FixModel,
    url: Seq<char>,
    archive: Seq<char>,
    term: Seq<char>,
) -> FixModel {
    match file_index(s.files, term) {
        None => s,
        Some(i) => if has(s.files[i].content, href(url)) {
            FixModel {
                files: s.files.update(
                    i,
                    FileModel {
                        term: s.files[i].term,
                        content: replace(s.files[i].content, href(url), href(archive)),
                    },
                ),
                findings: dead_marks(s.findings, term, url),
            }
        } else {
            s
        },
    }
}

/// The nodes and findings after the first `n` citing terms of a dead page.
pub open spec fn dead_terms(
    s: FixModel,
    url: Seq<char>,
    archive: Seq<char>,
    terms: Seq<Seq<char>>,
    n: nat,
) -> FixModel
    decreases n,
{
    if n == 0 {
        s
    } else {
        dead_fix(dead_terms(s, url, archive, terms, (n - 1) as nat), url, archive, terms[n - 1])
    }
}

/// The page is dead and there is a copy of it.
pub open spec fn replaceable(entry: EntryModel) -> bool {
    &&& entry.status matches Some(status) && status >= 400
    &&& entry.archives.len() > 0
}

/// The nodes and findings after the first `n` pages of the lock.
pub open spec fn dead_entries(
    s: FixModel,
    lock: Map<Seq<char>, EntryModel>,
    keys: Seq<Seq<char>>,
    n: nat,
) -> FixModel
    decreases n,
{
    if n == 0 {
        s
    } else {
        let before = dead_entries(s, lock, keys, (n - 1) as nat);
        let url = keys[n - 1];
        let entry = lock[url];
        if replaceable(entry) {
            dead_terms(before, url, entry.archives[0], entry.cited_by, entry.cited_by.len())
        } else {
            before
        }
    }
}

fn mark_dead(findings: &mut Vec<Finding>, term: &str, url: &str)
    ensures
        findings_of(final(findings)@) == dead_marks(findings_of(old(findings)@), term@, url@),
{
    let ghost start = findings_of(findings@);
    let n: usize = findings.len();
    for i in 0..n
        invariant
            n == findings@.len(),
            start.len() == n,
            forall|k: int|
                0 <= k < i ==> (#[trigger] findings@[k])@ == dead_mark(start[k], term@, url@),
            forall|k: int| i <= k < n ==> (#[trigger] findings@[k])@ == start[k],
    {
        assert(findings@[i as int]@ == start[i as int]);
        let message = chars_of(findings[i].message.as_str());
        if same(findings[i].check.as_str(), "dead_link") && same(findings[i].term.as_str(), term)
            && contains(message.as_slice(), url) {
            set_fixed(findings, i);
        }
    }
    assert(findings_of(findings@) =~= dead_marks(start, term@, url@));
}

fn set_fixed(findings: &mut Vec<Finding>, i: usize)
    requires
        i < old(findings)@.len(),
    ensures
        final(findings)@.len() == old(findings)@.len(),
        final(findings)@[i as int]@ == (FindingModel { fixed: true, ..old(findings)@[i as int]@ }),
        forall|k: int|
            0 <= k < old(findings)@.len() && k != i ==> (#[trigger] final(findings)@[k]) == old(
                findings,
            )@[k],
{
    let f = &findings[i];
    let marked = Finding {
        class: f.class.clone(),
        check: f.check.clone(),
        severity: f.severity.clone(),
        term: f.term.clone(),
        message: f.message.clone(),
        fix: crate::text::clone_opt(&f.fix),
        fixed: true,
    };
    findings.set(i, marked);
}

fn fix_dead_link(
    all: &mut Vec<NodeFile>,
    findings: &mut Vec<Finding>,
    url: &str,
    archive: &str,
    term: &str,
)
    ensures
        (FixModel { files: files(final(all)@), findings: findings_of(final(findings)@) })
            == dead_fix(
            FixModel { files: files(old(all)@), findings: findings_of(old(findings)@) },
            url@,
            archive@,
            term@,
        ),
{
    if let Some(i) = find_file(all, term) {
        let needle = href_text(url);
        let content = chars_of(all[i].content.as_str());
        if contains(content.as_slice(), needle.as_str()) {
            let new = href_text(archive);
            let text = text_of(
                replaced(content.as_slice(), needle.as_str(), new.as_str()).as_slice(),
            );
            set_content(all, i, text);
            mark_dead(findings, term, url);
        }
    }
}

/// Rewrite `href="<dead url>"` to the archived copy in every citing node.
pub fn apply_dead_link_fixes(all: &mut Vec<NodeFile>, lock: &Lock, findings: &mut Vec<Finding>)
    ensures
        (FixModel { files: files(final(all)@), findings: findings_of(final(findings)@) })
            == dead_entries(
            FixModel { files: files(old(all)@), findings: findings_of(old(findings)@) },
            lock@,
            lock.keys(),
            lock.keys().len(),
        ),
{
    let ghost start = FixModel { files: files(all@), findings: findings_of(findings@) };
    let ghost keys = lock.keys();
    let n: usize = lock.len();
    for i in 0..n
        invariant
            n == keys.len(),
            keys == lock.keys(),
            (FixModel { files: files(all@), findings: findings_of(findings@) }) == dead_entries(
                start,
                lock@,
                keys,
                i as nat,
            ),
    {
        let url = lock.key(i);
        let entry = lock.value(i);
        let dead = match entry.status {
            Some(status) => status >= 400,
            None => false,
        };
        assert(texts(entry.archives@).len() == entry.archives@.len());
        if dead && entry.archives.len() > 0 {
            let archive = &entry.archives[0];
            let ghost before = FixModel { files: files(all@), findings: findings_of(findings@) };
            let ghost terms = texts(entry.cited_by@);
            for k in 0..entry.cited_by.len()
                invariant
                    terms == texts(entry.cited_by@),
                    (FixModel { files: files(all@), findings: findings_of(findings@) })
                        == dead_terms(before, url@, archive@, terms, k as nat),
            {
                assert(terms[k as int] == entry.cited_by@[k as int]@);
                fix_dead_link(
                    all,
                    findings,
                    url.as_str(),
                    archive.as_str(),
                    entry.cited_by[k].as_str(),
                );
            }
        }
    }
}

// ---------------------------------------------------------------------------
// Pins
// ---------------------------------------------------------------------------

/// The length of the pin of a page that a text begins with, from the matches
/// of `LEADING_ANCHOR`; 0 when it does not begin with one.
pub open spec fn leading_pin(hits: Seq<Hit>, url: Seq<char>) -> int {
    if hits.len() == 0 {
        0
    } else {
        match original(group(hits[0], 1)) {
            Some(page) if page_key(url) == page_key(page) => (hits[0].before.len() + group(
                hits[0],
                0,
            ).len()) as int,
            _ => 0,
        }
    }
}

/// The length of the pins of a page that a text begins with; each of them ends
/// in its closing tag.
pub open spec fn pins_length(rest: Seq<char>, url: Seq<char>) -> int
    decreases rest.len(),
{
    let n = leading_pin(regex_matches(LEADING_ANCHOR@, rest).0, url);
    if 0 < n <= rest.len() && ends(rest.take(n), "</a>"@) {
        n + pins_length(rest.skip(n), url)
    } else {
        0
    }
}

/// The length of the pin of a page that a text begins with.
pub fn leading_pin_length(m: &Matches, url: &str) -> (r: usize)
    requires
        m@.0.len() > 0 ==> m@.0[0].before.len() + group(m@.0[0], 0).len() <= usize::MAX,
    ensures
        r == leading_pin(m@.0, url@),
{
    if m.found.len() == 0 {
        return 0;
    }
    let h = &m.found[0];
    assert(hits(m.found@)[0] == h@);
    let link = group_text(h, 1);
    match archived_original(link.as_str()) {
        None => 0,
        Some(page) => {
            if same_page(url, page.as_str()) {
                h.before.as_str().unicode_len() + group_text(h, 0).as_str().unicode_len()
            } else {
                0
            }
        },
    }
}

/// The length of the pins of `url` that `rest` begins with, so a new pin
/// lands after the ones already there.
pub fn end_of_pins(rest: &[char], url: &str) -> (r: usize)
    ensures
        r == pins_length(rest@, url@),
        r <= rest@.len(),
{
    let mut at: usize = 0;
    assert(rest@.skip(0) == rest@);
    let total: usize = rest.len();
    loop
        invariant
            total == rest@.len(),
            at <= total,
            pins_length(rest@, url@) == at + pins_length(rest@.skip(at as int), url@),
        ensures
            at <= total,
            pins_length(rest@, url@) == at,
        decreases total - at,
    {
        let part = text_of(tail(rest, at));
        let m = find_matches(LEADING_ANCHOR, part.as_str());
        proof {
            if m@.0.len() > 0 {
                lemma_first_hit(m@.0, m@.1);
            }
        }
        let n: usize = leading_pin_length(&m, url);
        assert(n <= part@.len()) by {
            if m@.0.len() > 0 {
                assert(m@.0[0].before.len() + group(m@.0[0], 0).len() <= part@.len());
            }
        }
        if n == 0 || !ends_with(head(tail(rest, at), n), "</a>") {
            break;
        }
        assert(rest@.skip(at as int).skip(n as int) == rest@.skip(at + n));
        at = at + n;
    }
    at
}

/// The label of a pin.
pub open spec fn pin_label(pin: Seq<char>) -> Seq<char> {
    match date_in_url(pin) {
        Some(date) => "(archived "@ + date + ")"@,
        None => "(archived)"@,
    }
}

/// A pin as it is written beside an anchor.
pub open spec fn pin_anchor(pin: Seq<char>) -> Seq<char> {
    " <a href=\""@ + pin + "\" target=\"_blank\">"@ + pin_label(pin) + "</a>"@
}

/// The pins that a line does not hold.
pub open spec fn absent_pins(line: Seq<char>, pins: Seq<Seq<char>>) -> Seq<Seq<char>>
    decreases pins.len(),
{
    if pins.len() == 0 {
        Seq::empty()
    } else if has(line, pins.last()) {
        absent_pins(line, pins.drop_last())
    } else {
        absent_pins(line, pins.drop_last()).push(pins.last())
    }
}

/// Pins as they are written one after the other.
pub open spec fn pin_anchors(pins: Seq<Seq<char>>) -> Seq<char>
    decreases pins.len(),
{
    if pins.len() == 0 {
        Seq::empty()
    } else {
        pin_anchors(pins.drop_last()) + pin_anchor(pins.last())
    }
}

/// Where on a line new pins of a page go: after its anchor and the pins that
/// follow it; nowhere on a line without a closed anchor of the page.
pub open spec fn pin_place(line: Seq<char>, url: Seq<char>) -> Option<int> {
    match first_of(line, href(url)) {
        None => None,
        Some(at) => match first_of(line.skip(at), "</a>"@) {
            None => None,
            Some(close) => Some(
                at + close + 4 + pins_length(line.skip(at + close + 4), url),
            ),
        },
    }
}

/// A line gets new pins.
pub open spec fn line_changes(line: Seq<char>, url: Seq<char>, pins: Seq<Seq<char>>) -> bool {
    pin_place(line, url) is Some && absent_pins(line, pins).len() > 0
}

/// A line with the pins of a page that it lacks.
pub open spec fn pinned_line(
    line: Seq<char>,
    url: Seq<char>,
    pins: Seq<Seq<char>>,
) -> Seq<char> {
    if line_changes(line, url, pins) {
        let cut = pin_place(line, url)->Some_0;
        line.take(cut) + pin_anchors(absent_pins(line, pins)) + line.skip(cut)
    } else {
        line
    }
}

/// The length of the first line of a text, with its line break.
pub open spec fn line_length(s: Seq<char>) -> int {
    if until(s, '\n') < s.len() {
        (until(s, '\n') + 1) as int
    } else {
        s.len() as int
    }
}

/// A text with the pins of a page that its lines lack.
pub open spec fn pinned_text(s: Seq<char>, url: Seq<char>, pins: Seq<Seq<char>>) -> Seq<char>
    decreases s.len(),
{
    if s.len() == 0 {
        Seq::empty()
    } else {
        pinned_line(s.take(line_length(s)), url, pins) + pinned_text(
            s.skip(line_length(s)),
            url,
            pins,
        )
    }
}

/// Some line of a text gets new pins.
pub open spec fn text_changes(s: Seq<char>, url: Seq<char>, pins: Seq<Seq<char>>) -> bool
    decreases s.len(),
{
    s.len() > 0 && (line_changes(s.take(line_length(s)), url, pins) || text_changes(
        s.skip(line_length(s)),
        url,
        pins,
    ))
}

/// A finding whose remedy is a pin beside the link: a passage the live page
/// lost, one it still carries but has drifted from, and a source whose host
/// no longer answers at all.
pub open spec fn pin_check(check: Seq<char>) -> bool {
    check == "quote_missing"@ || check == "quote_moved"@ || check == "unreachable_host"@
}

/// A text names all of the pins.
pub open spec fn names_all(text: Seq<char>, pins: Seq<Seq<char>>) -> bool {
    forall|i: int| 0 <= i < pins.len() ==> has(text, #[trigger] pins[i])
}

/// A finding once pins were written.
pub open spec fn pin_mark(f: FindingModel, w: WriteModel) -> FindingModel {
    if pin_check(f.check) && f.term == w.term && f.fix is Some && names_all(
        f.fix->Some_0,
        w.pins,
    ) {
        FindingModel { fixed: true, ..f }
    } else {
        f
    }
}

/// The findings once pins were written.
pub open spec fn pin_marks(findings: Seq<FindingModel>, w: WriteModel) -> Seq<FindingModel> {
    Seq::new(findings.len(), |i: int| pin_mark(findings[i], w))
}

/// The nodes and findings once pins were written in the node of a term.
pub open spec fn pin_fix_step(s: FixModel, w: WriteModel) -> FixModel {
    match file_index(s.files, w.term) {
        None => s,
        Some(i) => if text_changes(s.files[i].content, w.url, w.pins) {
            FixModel {
                files: s.files.update(
                    i,
                    FileModel {
                        term: s.files[i].term,
                        content: pinned_text(s.files[i].content, w.url, w.pins),
                    },
                ),
                findings: pin_marks(s.findings, w),
            }
        } else {
            s
        },
    }
}

/// The nodes and findings after the first `n` lists of pins.
pub open spec fn pin_fixes(s: FixModel, writes: Seq<WriteModel>, n: nat) -> FixModel
    decreases n,
{
    if n == 0 {
        s
    } else {
        pin_fix_step(pin_fixes(s, writes, (n - 1) as nat), writes[n - 1])
    }
}

fn pins_lacking(line: &[char], pins: &Vec<String>) -> (r: Vec<String>)
    ensures
        texts(r@) == absent_pins(line@, texts(pins@)),
{
    let ghost all = texts(pins@);
    let mut r: Vec<String> = Vec::new();
    assert(texts(r@) =~= absent_pins(line@, all.take(0)));
    for i in 0..pins.len()
        invariant
            all == texts(pins@),
            texts(r@) == absent_pins(line@, all.take(i as int)),
    {
        assert(all.take(i + 1).drop_last() == all.take(i as int));
        assert(all.take(i + 1).last() == pins@[i as int]@);
        if !contains(line, pins[i].as_str()) {
            proof {
                lemma_push_text(r@, pins@[i as int]);
            }
            r.push(pins[i].clone());
        }
    }
    assert(all.take(pins@.len() as int) == all);
    r
}

fn anchor_of(pin: &str) -> (r: String)
    ensures
        r@ == pin_anchor(pin@),
{
    let mut r = " <a href=\"".to_string();
    r.append(pin);
    r.append("\" target=\"_blank\">");
    let label = match snapshot_date(pin) {
        Some(date) => {
            let mut s = "(archived ".to_string();
            s.append(date.as_str());
            s.append(")");
            s
        },
        None => "(archived)".to_string(),
    };
    r.append(label.as_str());
    r.append("</a>");
    r
}

fn place_of_pins(line: &[char], url: &str) -> (r: Option<usize>)
    ensures
        r is Some <==> pin_place(line@, url@) is Some,
        r matches Some(cut) ==> pin_place(line@, url@) == Some(cut as int) && cut <= line@.len(),
{
    let needle = href_text(url);
    let total: usize = line.len();
    proof {
        lemma_first_of(line@, href(url@));
        reveal_strlit("</a>");
    }
    match find(line, needle.as_str()) {
        None => None,
        Some(at) => {
            let from = tail(line, at);
            proof {
                lemma_first_of(from@, "</a>"@);
            }
            match find(from, "</a>") {
                None => None,
                Some(close) => {
                    let start: usize = at + close + 4;
                    let rest = tail(line, start);
                    Some(start + end_of_pins(rest, url))
                },
            }
        },
    }
}

/// Adds a line, with the pins that it lacks, to `out`.
fn pin_line(out: &mut String, line: &[char], url: &str, pins: &Vec<String>) -> (r: bool)
    ensures
        r == line_changes(line@, url@, texts(pins@)),
        final(out)@ == old(out)@ + pinned_line(line@, url@, texts(pins@)),
{
    let ghost was = out@;
    if let Some(cut) = place_of_pins(line, url) {
        let absent = pins_lacking(line, pins);
        assert(texts(absent@).len() == absent@.len());
        if absent.len() > 0 {
            let ghost all = texts(absent@);
            append_chars(out, head(line, cut));
            let ghost part = out@;
            assert(part + pin_anchors(all.take(0)) =~= part);
            for i in 0..absent.len()
                invariant
                    all == texts(absent@),
                    out@ == part + pin_anchors(all.take(i as int)),
            {
                assert(all.take(i + 1).drop_last() == all.take(i as int));
                assert(all.take(i + 1).last() == absent@[i as int]@);
                let anchor = anchor_of(absent[i].as_str());
                out.append(anchor.as_str());
                assert((part + pin_anchors(all.take(i as int))) + anchor@ =~= part + (pin_anchors(
                    all.take(i as int),
                ) + anchor@));
            }
            assert(all.take(absent@.len() as int) == all);
            append_chars(out, tail(line, cut));
            assert(out@ =~= was + pinned_line(line@, url@, texts(pins@)));
            return true;
        }
    }
    append_chars(out, line);
    false
}

fn length_of_line(s: &[char], from: usize) -> (r: usize)
    requires
        from < s@.len(),
    ensures
        r == line_length(s@.skip(from as int)),
        0 < r <= s@.len() - from,
{
    let n: usize = count_until(s, from, '\n');
    proof {
        lemma_until(s@.skip(from as int), '\n');
    }
    if n < s.len() - from {
        n + 1
    } else {
        n
    }
}

/// A text with the pins of a page that its lines lack, and whether any line
/// changed.
pub fn pin_text(content: &str, url: &str, pins: &Vec<String>) -> (r: (String, bool))
    ensures
        r.0@ == pinned_text(content@, url@, texts(pins@)),
        r.1 == text_changes(content@, url@, texts(pins@)),
{
    let s = chars_of(content);
    let ghost list = texts(pins@);
    let mut out = String::new();
    let mut changed = false;
    let mut at: usize = 0;
    assert(s@.skip(0) == s@);
    assert(out@ + pinned_text(s@, url@, list) =~= pinned_text(s@, url@, list));
    while at < s.len()
        invariant
            at <= s@.len(),
            list == texts(pins@),
            pinned_text(s@, url@, list) == out@ + pinned_text(s@.skip(at as int), url@, list),
            text_changes(s@, url@, list) == (changed || text_changes(
                s@.skip(at as int),
                url@,
                list,
            )),
        decreases s@.len() - at,
    {
        let n: usize = length_of_line(s.as_slice(), at);
        let ghost rest = s@.skip(at as int);
        let line = head(tail(s.as_slice(), at), n);
        assert(line@ =~= rest.take(n as int));
        assert(rest.skip(n as int) == s@.skip(at + n));
        let ghost was = out@;
        if pin_line(&mut out, line, url, pins) {
            changed = true;
        }
        assert(was + (pinned_line(line@, url@, list) + pinned_text(s@.skip(at + n), url@, list))
            =~= out@ + pinned_text(s@.skip(at + n), url@, list));
        at = at + n;
    }
    assert(s@.skip(at as int) =~= Seq::<char>::empty());
    assert(out@ + pinned_text(s@.skip(at as int), url@, list) =~= out@);
    (out, changed)
}

fn fix_names_all(fix: &str, pins: &Vec<String>) -> (r: bool)
    ensures
        r == names_all(fix@, texts(pins@)),
{
    let text = chars_of(fix);
    for i in 0..pins.len()
        invariant
            text@ == fix@,
            forall|k: int| 0 <= k < i ==> has(fix@, #[trigger] texts(pins@)[k]),
    {
        if !contains(text.as_slice(), pins[i].as_str()) {
            assert(!(has(fix@, texts(pins@)[i as int])));
            return false;
        }
    }
    true
}

fn mark_pins(findings: &mut Vec<Finding>, w: &PinWrite)
    ensures
        findings_of(final(findings)@) == pin_marks(findings_of(old(findings)@), w@),
{
    let ghost start = findings_of(findings@);
    let n: usize = findings.len();
    for i in 0..n
        invariant
            n == findings@.len(),
            start.len() == n,
            forall|k: int| 0 <= k < i ==> (#[trigger] findings@[k])@ == pin_mark(start[k], w@),
            forall|k: int| i <= k < n ==> (#[trigger] findings@[k])@ == start[k],
    {
        assert(findings@[i as int]@ == start[i as int]);
        let named = match &findings[i].fix {
            Some(fix) => fix_names_all(fix.as_str(), &w.pins),
            None => false,
        };
        let check = findings[i].check.as_str();
        if (same(check, "quote_missing") || same(check, "quote_moved") || same(
            check,
            "unreachable_host",
        )) && same(findings[i].term.as_str(), w.term.as_str()) && named {
            set_fixed(findings, i);
        }
    }
    assert(findings_of(findings@) =~= pin_marks(start, w@));
}

/// Write ` <a href="<snapshot>" target="_blank">(archived YYYY-MM-DD)</a>`
/// after the anchor of `url` in each node that needs the pin, following any
/// pins the line already carries.
pub fn apply_pin_fixes(
    all: &mut Vec<NodeFile>,
    to_write: &Vec<PinWrite>,
    findings: &mut Vec<Finding>,
)
    ensures
        (FixModel { files: files(final(all)@), findings: findings_of(final(findings)@) })
            == pin_fixes(
            FixModel { files: files(old(all)@), findings: findings_of(old(findings)@) },
            writes_of(to_write@),
            to_write@.len(),
        ),
{
    let ghost start = FixModel { files: files(all@), findings: findings_of(findings@) };
    let ghost writes = writes_of(to_write@);
    for k in 0..to_write.len()
        invariant
            writes == writes_of(to_write@),
            (FixModel { files: files(all@), findings: findings_of(findings@) }) == pin_fixes(
                start,
                writes,
                k as nat,
            ),
    {
        let w = &to_write[k];
        assert(writes[k as int] == w@);
        if let Some(i) = find_file(all, w.term.as_str()) {
            assert(files(all@)[i as int] == all@[i as int]@);
            let (text, changed) = pin_text(all[i].content.as_str(), w.url.as_str(), &w.pins);
            if changed {
                set_content(all, i, text);
                mark_pins(findings, w);
            }
        }
    }
}

}
