//! What the remedies of the source pass write into the nodes.

use vstd::prelude::*;

use crate::commands::audit::FindingModel;
use crate::commands::source_check::check::after_fixes;
use crate::commands::source_check::fixes::{
    absent_pins, dead_entries, dead_fix, dead_terms, file_index, href, line_changes, pin_anchor,
    pin_anchors, pin_fix_step, pin_fixes, pin_place, pinned_line, pinned_text, pins_length, text_changes,
    FixModel,
};
use crate::commands::source_check::pass::PassModel;
use crate::commands::source_check::snapshots::date_in_url;
use crate::commands::source_check::term::WriteModel;
use crate::commands::sources::{original, page_key, EntryModel};
use crate::markdown::FileModel;
use crate::pattern::{group, regex_matches};
use crate::text::{ends, first_of, has, lemma_first_of, replace, starts};

verus! {

// ---------------------------------------------------------------------------
// Dead links
// ---------------------------------------------------------------------------

/// The node of a term is the first of its name.
pub proof fn a_term_is_mended_in_its_first_node(all: Seq<FileModel>, term: Seq<char>)
    ensures
        file_index(all, term) matches Some(i) ==> 0 <= i < all.len() && all[i].term == term
            && forall|j: int| 0 <= j < i ==> (#[trigger] all[j]).term != term,
        file_index(all, term) is None ==> forall|j: int|
            0 <= j < all.len() ==> (#[trigger] all[j]).term != term,
    decreases all.len(),
{
    if all.len() > 0 {
        let front = all.drop_last();
        a_term_is_mended_in_its_first_node(front, term);
        match file_index(front, term) {
            Some(i) => {
                assert(front[i] == all[i]);
                assert forall|j: int| 0 <= j < i implies (#[trigger] all[j]).term != term by {
                    assert(front[j] == all[j]);
                }
            },
            None => {
                assert forall|j: int| 0 <= j < all.len() - 1 implies (#[trigger] all[j]).term
                    != term by {
                    assert(front[j] == all[j]);
                }
            },
        }
    }
}

/// What a replacement does: a text that does not hold `p` stays, and one whose
/// first `p` stands behind `a` has `by` there, and what follows is treated
/// likewise.
pub proof fn a_replacement_takes_every_place(
    a: Seq<char>,
    p: Seq<char>,
    b: Seq<char>,
    by: Seq<char>,
)
    requires
        p.len() > 0,
        first_of(a + p + b, p) == Some(a.len() as int),
    ensures
        replace(a + p + b, p, by) == a + by + replace(b, p, by),
    decreases a.len(),
{
    let s = a + p + b;
    lemma_first_of(s, p);
    if a.len() == 0 {
        assert(s.skip(0) =~= s);
        assert(s.skip(p.len() as int) =~= b);
        assert(a + by =~= by);
    } else {
        let rest = a.skip(1);
        assert(s.skip(0) =~= s);
        assert(!starts(s.skip(0), p));
        assert(s.skip(1) =~= rest + p + b);
        assert(first_of(s, p) == match first_of(s.skip(1), p) {
            Some(i) => Some(i + 1),
            None => None,
        });
        a_replacement_takes_every_place(rest, p, b, by);
        assert(seq![s[0]] + (rest + by + replace(b, p, by)) =~= a + by + replace(b, p, by));
    }
}

/// A replacement leaves a text as it is that does not hold what is replaced.
pub proof fn a_replacement_leaves_other_texts(s: Seq<char>, p: Seq<char>, by: Seq<char>)
    requires
        !(has(s, p)),
    ensures
        replace(s, p, by) == s,
    decreases s.len(),
{
    if s.len() > 0 && p.len() > 0 {
        a_replacement_leaves_other_texts(s.skip(1), p, by);
        assert(seq![s[0]] + s.skip(1) =~= s);
    }
}

/// A dead link is replaced by the archived copy wherever the node of the term
/// holds it; the other nodes stay, and the findings of the dead link for the
/// term are marked as fixed, no others.
pub proof fn a_dead_link_becomes_one_to_the_copy(
    s: FixModel,
    url: Seq<char>,
    archive: Seq<char>,
    term: Seq<char>,
    i: int,
    a: Seq<char>,
    b: Seq<char>,
)
    requires
        0 <= i < s.files.len(),
        s.files[i].term == term,
        forall|j: int| 0 <= j < i ==> (#[trigger] s.files[j]).term != term,
        s.files[i].content == a + ("href=\""@ + url + "\""@) + b,
        first_of(s.files[i].content, "href=\""@ + url + "\""@) == Some(a.len() as int),
    ensures
        ({
            let r = dead_fix(s, url, archive, term);
            &&& r.files.len() == s.files.len()
            &&& forall|j: int|
                0 <= j < s.files.len() && j != i ==> #[trigger] r.files[j] == s.files[j]
            &&& r.files[i].term == term
            &&& r.files[i].content == a + ("href=\""@ + archive + "\""@) + replace(
                b,
                "href=\""@ + url + "\""@,
                "href=\""@ + archive + "\""@,
            )
            &&& r.findings.len() == s.findings.len()
            &&& forall|k: int|
                0 <= k < s.findings.len() ==> {
                    let f = #[trigger] s.findings[k];
                    if f.check == "dead_link"@ && f.term == term && has(f.message, url) {
                        r.findings[k] == (FindingModel { fixed: true, ..f })
                    } else {
                        r.findings[k] == f
                    }
                }
        }),
{
    let p = "href=\""@ + url + "\""@;
    reveal_strlit("href=\"");
    a_term_is_mended_in_its_first_node(s.files, term);
    let at = file_index(s.files, term);
    assert(at == Some(i)) by {
        if at is Some && at->Some_0 < i {
            assert(s.files[at->Some_0].term != term);
        }
    }
    a_replacement_takes_every_place(a, p, b, "href=\""@ + archive + "\""@);
}

/// A node that does not link to the dead page stays, and so do the findings;
/// the same holds where the term has no node.
pub proof fn a_node_without_the_link_stays(
    s: FixModel,
    url: Seq<char>,
    archive: Seq<char>,
    term: Seq<char>,
)
    requires
        forall|j: int|
            0 <= j < s.files.len() && (#[trigger] s.files[j]).term == term ==> !(has(
                s.files[j].content,
                "href=\""@ + url + "\""@,
            )),
    ensures
        dead_fix(s, url, archive, term) == s,
{
    a_term_is_mended_in_its_first_node(s.files, term);
}

/// Only a page that answered with an error and has a copy is replaced, by the
/// first of its copies, in the terms that cite it.
pub proof fn only_dead_pages_with_a_copy_are_replaced(
    s: FixModel,
    lock: Map<Seq<char>, EntryModel>,
    keys: Seq<Seq<char>>,
    n: nat,
)
    requires
        0 < n <= keys.len(),
    ensures
        ({
            let before = dead_entries(s, lock, keys, (n - 1) as nat);
            let entry = lock[keys[n - 1]];
            &&& entry.status is None || entry.status->Some_0 < 400 || entry.archives.len() == 0
                ==> dead_entries(s, lock, keys, n) == before
            &&& entry.status is Some && entry.status->Some_0 >= 400 && entry.archives.len() > 0
                ==> dead_entries(s, lock, keys, n) == dead_terms(
                before,
                keys[n - 1],
                entry.archives[0],
                entry.cited_by,
                entry.cited_by.len(),
            )
        }),
        dead_entries(s, lock, keys, 0) == s,
{
}

// ---------------------------------------------------------------------------
// Pins
// ---------------------------------------------------------------------------

/// A pin is written as an anchor that opens in a new tab; its label names the
/// date of the snapshot where its URL gives one.
pub proof fn a_pin_is_an_anchor_with_its_date(pin: Seq<char>)
    ensures
        date_in_url(pin) is None ==> pin_anchor(pin) == " <a href=\""@ + pin
            + "\" target=\"_blank\">"@ + "(archived)"@ + "</a>"@,
        date_in_url(pin) matches Some(date) ==> pin_anchor(pin) == " <a href=\""@ + pin
            + "\" target=\"_blank\">"@ + ("(archived "@ + date + ")"@) + "</a>"@,
{
}

/// The pins that a line lacks: those it does not hold, in their order.
pub proof fn a_line_lacks_the_pins_it_does_not_hold(line: Seq<char>, pins: Seq<Seq<char>>)
    ensures
        absent_pins(line, pins) == pins.filter(|pin: Seq<char>| !(has(line, pin))),
    decreases pins.len(),
{
    reveal(Seq::filter);
    if pins.len() > 0 {
        a_line_lacks_the_pins_it_does_not_hold(line, pins.drop_last());
    }
}

/// New pins of a page stand behind its anchor and the pins of the page that
/// follow it; nothing else on the line changes.
pub proof fn new_pins_stand_behind_the_anchor(
    a: Seq<char>,
    url: Seq<char>,
    b: Seq<char>,
    c: Seq<char>,
    pins: Seq<Seq<char>>,
)
    requires
        ({
            let link = "href=\""@ + url + "\""@;
            &&& first_of(a + link + b + "</a>"@ + c, link) == Some(a.len() as int)
            &&& first_of(link + b + "</a>"@ + c, "</a>"@) == Some((link.len() + b.len()) as int)
        }),
        absent_pins(a + ("href=\""@ + url + "\""@) + b + "</a>"@ + c, pins).len() > 0,
    ensures
        ({
            let anchor = a + ("href=\""@ + url + "\""@) + b + "</a>"@;
            let line = anchor + c;
            let k = pins_length(c, url);
            &&& line_changes(line, url, pins)
            &&& 0 <= k <= c.len() ==> pinned_line(line, url, pins) == anchor + c.take(k)
                + pin_anchors(absent_pins(line, pins)) + c.skip(k)
        }),
{
    let link = "href=\""@ + url + "\""@;
    let anchor = a + link + b + "</a>"@;
    let line = anchor + c;
    let k = pins_length(c, url);
    let at = a.len() as int;
    reveal_strlit("</a>");
    assert(line.skip(at) =~= link + b + "</a>"@ + c);
    assert(line.skip(anchor.len() as int) =~= c);
    assert(anchor.len() == at + link.len() + b.len() + 4);
    assert(pin_place(line, url) == Some((anchor.len() + k) as int));
    if 0 <= k <= c.len() {
        assert(line.take((anchor.len() + k) as int) =~= anchor + c.take(k));
        assert(line.skip((anchor.len() + k) as int) =~= c.skip(k));
    }
}

/// A line without a closed anchor of the page, or that holds all of the pins,
/// stays as it is.
pub proof fn a_line_without_the_anchor_stays(
    line: Seq<char>,
    url: Seq<char>,
    pins: Seq<Seq<char>>,
)
    ensures
        !(has(line, "href=\""@ + url + "\""@)) ==> pinned_line(line, url, pins) == line,
        first_of(line, "href=\""@ + url + "\""@) matches Some(at) && !(has(line.skip(at), "</a>"@))
            ==> pinned_line(line, url, pins) == line,
        (forall|i: int| 0 <= i < pins.len() ==> has(line, #[trigger] pins[i])) ==> pinned_line(
            line,
            url,
            pins,
        ) == line,
{
    if forall|i: int| 0 <= i < pins.len() ==> has(line, #[trigger] pins[i]) {
        lemma_none_absent(line, pins);
    }
}

proof fn lemma_none_absent(line: Seq<char>, pins: Seq<Seq<char>>)
    requires
        forall|i: int| 0 <= i < pins.len() ==> has(line, #[trigger] pins[i]),
    ensures
        absent_pins(line, pins).len() == 0,
    decreases pins.len(),
{
    if pins.len() > 0 {
        let front = pins.drop_last();
        assert(has(line, pins[pins.len() - 1]));
        assert forall|i: int| 0 <= i < front.len() implies has(line, #[trigger] front[i]) by {
            assert(front[i] == pins[i]);
        }
        lemma_none_absent(line, front);
    }
}

/// The pins of a page that a text begins with: an anchor that leads to a copy
/// of the page is one of them, and what follows it may be the next; a text
/// that begins with no anchor, or with one to anything else, has none.
pub proof fn leading_pins_are_copies_of_the_page(rest: Seq<char>, url: Seq<char>)
    ensures
        ({
            let found = regex_matches(r#"^\s*<a\s+href="([^"\s]+)"[^>]*>[^<]*</a>"#@, rest).0;
            &&& found.len() == 0 ==> pins_length(rest, url) == 0
            &&& found.len() > 0 && original(group(found[0], 1)) is None ==> pins_length(rest, url)
                == 0
            &&& found.len() > 0 && original(group(found[0], 1)) is Some && page_key(
                original(group(found[0], 1))->Some_0,
            ) != page_key(url) ==> pins_length(rest, url) == 0
            &&& found.len() > 0 && original(group(found[0], 1)) is Some && page_key(
                original(group(found[0], 1))->Some_0,
            ) == page_key(url) ==> {
                let n = (found[0].before.len() + group(found[0], 0).len()) as int;
                0 < n <= rest.len() && ends(rest.take(n), "</a>"@) ==> pins_length(rest, url) == n
                    + pins_length(rest.skip(n), url)
            }
        }),
{
}

/// Once pins are written for a term, the findings marked as fixed are those
/// of the term whose remedy names all of the pins: of a passage that is lost
/// or has changed, or a host that cannot be reached. No other finding changes.
pub proof fn written_pins_fix_the_findings_that_name_them(
    s: FixModel,
    w: WriteModel,
    k: int,
)
    requires
        0 <= k < s.findings.len(),
    ensures
        ({
            let r = pin_fix_step(s, w);
            let f = s.findings[k];
            let i = file_index(s.files, w.term);
            let written = i is Some && text_changes(s.files[i->Some_0].content, w.url, w.pins);
            let named = f.term == w.term && (f.check == "quote_missing"@ || f.check
                == "quote_moved"@ || f.check == "unreachable_host"@) && (f.fix matches Some(fix)
                && forall|m: int| 0 <= m < w.pins.len() ==> has(fix, #[trigger] w.pins[m]));
            &&& r.findings.len() == s.findings.len()
            &&& written && named ==> r.findings[k] == (FindingModel { fixed: true, ..f })
            &&& !(written && named) ==> r.findings[k] == f
        }),
{
}

/// Pins are written into the node of their term and into no other; where no
/// line of it lacks them nothing changes at all.
pub proof fn pins_are_written_into_their_node(s: FixModel, w: WriteModel, j: int)
    requires
        0 <= j < s.files.len(),
    ensures
        ({
            let r = pin_fix_step(s, w);
            &&& r.files.len() == s.files.len()
            &&& s.files[j].term != w.term ==> r.files[j] == s.files[j]
            &&& s.files[j].term == w.term && (forall|m: int|
                0 <= m < j ==> (#[trigger] s.files[m]).term != w.term) ==> r.files[j].term
                == w.term && (text_changes(s.files[j].content, w.url, w.pins) ==> r.files[j].content
                == pinned_text(s.files[j].content, w.url, w.pins)) && (!text_changes(
                s.files[j].content,
                w.url,
                w.pins,
            ) ==> r == s)
        }),
{
    a_term_is_mended_in_its_first_node(s.files, w.term);
    let at = file_index(s.files, w.term);
    if s.files[j].term == w.term && (forall|m: int|
        0 <= m < j ==> (#[trigger] s.files[m]).term != w.term) {
        assert(at == Some(j)) by {
            if at is Some && at->Some_0 < j {
                assert(s.files[at->Some_0].term != w.term);
            }
        }
    }
}

/// Nothing is written unless it is asked for; then dead links are replaced
/// first, and pins are written into what that leaves, one list after another.
pub proof fn remedies_are_applied_when_asked_for(all: Seq<FileModel>, p: PassModel)
    ensures
        after_fixes(all, p, false).files == all,
        after_fixes(all, p, false).findings == p.findings,
        ({
            let before = FixModel { files: all, findings: p.findings };
            let replaced = dead_entries(before, p.lock, p.keys, p.keys.len());
            &&& p.writes.len() == 0 ==> after_fixes(all, p, true) == replaced
            &&& p.writes.len() > 0 ==> after_fixes(all, p, true) == pin_fix_step(
                pin_fixes(replaced, p.writes, (p.writes.len() - 1) as nat),
                p.writes.last(),
            )
        }),
{
}

}
