//! `[[audit.waiver]]`: findings a person reviewed and decided to live with.
//!
//! Some findings are not defects waiting on work but decisions already made. A
//! citation whose page is gone from the live web and from every archive is not
//! going to become reachable; whether to drop the line or keep it and accept
//! the standing warning is the author's call, and once it is made the audit
//! has nothing left to tell anyone.
//!
//! Two things a waiver deliberately does not do. It does not hide the finding:
//! an accepted finding still prints, because a decision the reader cannot see
//! is indistinguishable from a check that quietly stopped running. And it does
//! not change what a fix applies: a waiver is a decision about reporting, not
//! about the ontology's content.
//!
//! A waiver that matches nothing is reported as `stale_waiver`: a list nobody
//! prunes is a way to silence the check rather than a record of decisions.

use vstd::prelude::*;
use vstd::string::*;

use crate::commands::audit::{findings_of, lemma_push_finding, Finding, FindingModel};
use crate::config::{waivers_of, Waiver, WaiverModel};
use crate::text::{chars_of, clone_opt, contains, has, lemma_take_next, same};

verus! {

/// The severity a waived finding carries: neither error nor warning, and
/// counted as neither.
pub const ACCEPTED: &'static str = "accepted";

/// A waiver is about a finding.
pub open spec fn accepts(w: WaiverModel, f: FindingModel) -> bool {
    &&& f.term == w.term
    &&& f.check == w.check
    &&& match w.source {
        Some(source) => has(f.message, source),
        None => true,
    }
}

/// The first waiver that is about a finding.
pub open spec fn first_waiver(ws: Seq<WaiverModel>, f: FindingModel) -> Option<int>
    decreases ws.len(),
{
    if ws.len() == 0 {
        None
    } else if accepts(ws[0], f) {
        Some(0)
    } else {
        match first_waiver(ws.skip(1), f) {
            Some(i) => Some(i + 1),
            None => None,
        }
    }
}

/// How an acceptance reads in the report.
pub open spec fn acceptance(w: WaiverModel) -> Seq<char> {
    " — accepted "@ + w.decided_on + ": "@ + w.reason
}

/// A finding after the waivers.
pub open spec fn waived(f: FindingModel, ws: Seq<WaiverModel>) -> FindingModel {
    match first_waiver(ws, f) {
        Some(i) => FindingModel {
            severity: ACCEPTED@,
            message: f.message + acceptance(ws[i]),
            ..f
        },
        None => f,
    }
}

/// Findings after the waivers.
pub open spec fn all_waived(fs: Seq<FindingModel>, ws: Seq<WaiverModel>) -> Seq<FindingModel> {
    Seq::new(fs.len(), |i: int| waived(fs[i], ws))
}

/// Some finding was accepted by waiver `j`.
pub open spec fn in_use(fs: Seq<FindingModel>, ws: Seq<WaiverModel>, j: int) -> bool {
    exists|i: int| 0 <= i < fs.len() && first_waiver(ws, #[trigger] fs[i]) == Some(j)
}

/// How a waiver names itself.
pub open spec fn described(w: WaiverModel) -> Seq<char> {
    w.term + " / "@ + w.check + (match w.source {
        Some(source) => " ("@ + source + ")"@,
        None => ""@,
    })
}

/// The finding about a waiver that nothing needed.
pub open spec fn stale_waiver(w: WaiverModel) -> FindingModel {
    FindingModel {
        class: "audit"@,
        check: "stale_waiver"@,
        severity: "warning"@,
        term: w.term,
        message: "audit.waiver accepts "@ + described(w) + " ("@ + w.reason
            + "), but nothing raised it this run — it is either resolved or stale, so drop the entry"@,
        fix: None,
        fixed: false,
    }
}

/// The findings about those of the first `n` waivers that nothing needed.
pub open spec fn stale_waivers(
    fs: Seq<FindingModel>,
    ws: Seq<WaiverModel>,
    n: nat,
) -> Seq<FindingModel>
    decreases n,
{
    if n == 0 {
        Seq::empty()
    } else {
        let front = stale_waivers(fs, ws, (n - 1) as nat);
        if in_use(fs, ws, n - 1) {
            front
        } else {
            front.push(stale_waiver(ws[n - 1]))
        }
    }
}

fn matches(waiver: &Waiver, finding: &Finding) -> (r: bool)
    ensures
        r == accepts(waiver@, finding@),
{
    if !same(finding.term.as_str(), waiver.term.as_str()) || !same(
        finding.check.as_str(),
        waiver.check.as_str(),
    ) {
        return false;
    }
    match &waiver.source {
        Some(source) => {
            let cs = chars_of(finding.message.as_str());
            contains(cs.as_slice(), source.as_str())
        },
        None => true,
    }
}

fn note(waiver: &Waiver) -> (r: String)
    ensures
        r@ == acceptance(waiver@),
{
    let mut r = " — accepted ".to_string();
    r.append(waiver.decided_on.as_str());
    r.append(": ");
    r.append(waiver.reason.as_str());
    r
}

fn describe(waiver: &Waiver) -> (r: String)
    ensures
        r@ == described(waiver@),
{
    let mut r = waiver.term.clone();
    r.append(" / ");
    r.append(waiver.check.as_str());
    let mut tail = "".to_string();
    if let Some(source) = &waiver.source {
        tail = " (".to_string();
        tail.append(source.as_str());
        tail.append(")");
    }
    r.append(tail.as_str());
    r
}

fn find_waiver(waivers: &Vec<Waiver>, finding: &Finding) -> (r: Option<usize>)
    ensures
        r is None <==> first_waiver(waivers_of(waivers@), finding@) is None,
        r matches Some(i) ==> i < waivers@.len() && first_waiver(
            waivers_of(waivers@),
            finding@,
        ) == Some(i as int),
{
    let ghost all = waivers_of(waivers@);
    assert(all.skip(0) == all);
    for i in 0..waivers.len()
        invariant
            all == waivers_of(waivers@),
            first_waiver(all.skip(i as int), finding@) is None <==> first_waiver(
                all,
                finding@,
            ) is None,
            first_waiver(all.skip(i as int), finding@) matches Some(k) ==> first_waiver(
                all,
                finding@,
            ) == Some(k + i),
    {
        assert(all.skip(i as int)[0] == waivers@[i as int]@);
        assert(all.skip(i as int).skip(1) == all.skip(i + 1));
        if matches(&waivers[i], finding) {
            return Some(i);
        }
    }
    assert(all.skip(waivers@.len() as int) =~= Seq::<WaiverModel>::empty());
    None
}

fn accepted(f: &Finding, waiver: &Waiver) -> (r: Finding)
    ensures
        r@ == (FindingModel {
            severity: ACCEPTED@,
            message: f@.message + acceptance(waiver@),
            ..f@
        }),
{
    let mut message = f.message.clone();
    message.append(note(waiver).as_str());
    Finding {
        class: f.class.clone(),
        check: f.check.clone(),
        severity: ACCEPTED.to_string(),
        term: f.term.clone(),
        message,
        fix: clone_opt(&f.fix),
        fixed: f.fixed,
    }
}

fn stale_finding(waiver: &Waiver) -> (r: Finding)
    ensures
        r@ == stale_waiver(waiver@),
{
    let mut message = "audit.waiver accepts ".to_string();
    message.append(describe(waiver).as_str());
    message.append(" (");
    message.append(waiver.reason.as_str());
    message.append(
        "), but nothing raised it this run — it is either resolved or stale, so drop the entry",
    );
    Finding {
        class: "audit".to_string(),
        check: "stale_waiver".to_string(),
        severity: "warning".to_string(),
        term: waiver.term.clone(),
        message,
        fix: None,
        fixed: false,
    }
}

/// Demote every finding a waiver accepts; return the `stale_waiver` findings
/// for the waivers that matched nothing. The first matching waiver wins, and
/// the rest are left to report themselves as stale.
pub fn apply(findings: &mut Vec<Finding>, waivers: &Vec<Waiver>) -> (r: Vec<Finding>)
    ensures
        findings_of(final(findings)@) == all_waived(
            findings_of(old(findings)@),
            waivers_of(waivers@),
        ),
        findings_of(r@) == stale_waivers(
            findings_of(old(findings)@),
            waivers_of(waivers@),
            waivers@.len(),
        ),
{
    let ghost fs = findings_of(findings@);
    let ghost ws = waivers_of(waivers@);
    let mut used: Vec<bool> = Vec::new();
    for j in 0..waivers.len()
        invariant
            used@.len() == j,
            forall|k: int| 0 <= k < j ==> !(#[trigger] used@[k]),
    {
        used.push(false);
    }
    let mut out: Vec<Finding> = Vec::new();
    let ghost after = all_waived(fs, ws);
    assert(findings_of(out@) =~= after.take(0));
    for i in 0..findings.len()
        invariant
            fs == findings_of(findings@),
            ws == waivers_of(waivers@),
            after == all_waived(fs, ws),
            findings_of(out@) == after.take(i as int),
            used@.len() == waivers@.len(),
            forall|k: int|
                0 <= k < used@.len() ==> (#[trigger] used@[k] == in_use(
                    fs.take(i as int),
                    ws,
                    k,
                )),
    {
        let f = &findings[i];
        assert(fs[i as int] == f@);
        let ghost before = used@;
        let place = find_waiver(waivers, f);
        let one = match place {
            Some(k) => {
                used.set(k, true);
                accepted(f, &waivers[k])
            },
            None => copy_finding(f),
        };
        proof {
            lemma_push_finding(out@, one);
            lemma_take_next(after, i as int);
            assert(one@ == waived(f@, ws));
            assert forall|k: int| 0 <= k < used@.len() implies (#[trigger] used@[k] == in_use(
                fs.take(i + 1),
                ws,
                k,
            )) by {
                lemma_in_use(fs, ws, i as int, k);
                assert(before[k] == in_use(fs.take(i as int), ws, k));
            }
        }
        out.push(one);
    }
    assert(after.take(fs.len() as int) == after);
    assert(fs.take(fs.len() as int) == fs);
    let mut stale: Vec<Finding> = Vec::new();
    assert(findings_of(stale@) =~= stale_waivers(fs, ws, 0));
    for j in 0..waivers.len()
        invariant
            ws == waivers_of(waivers@),
            used@.len() == waivers@.len(),
            forall|k: int| 0 <= k < used@.len() ==> (#[trigger] used@[k] == in_use(fs, ws, k)),
            findings_of(stale@) == stale_waivers(fs, ws, j as nat),
    {
        assert(ws[j as int] == waivers@[j as int]@);
        assert(used@[j as int] == in_use(fs, ws, j as int));
        if !used[j] {
            let one = stale_finding(&waivers[j]);
            proof {
                lemma_push_finding(stale@, one);
            }
            stale.push(one);
        }
    }
    *findings = out;
    stale
}

fn copy_finding(f: &Finding) -> (r: Finding)
    ensures
        r@ == f@,
{
    Finding {
        class: f.class.clone(),
        check: f.check.clone(),
        severity: f.severity.clone(),
        term: f.term.clone(),
        message: f.message.clone(),
        fix: clone_opt(&f.fix),
        fixed: f.fixed,
    }
}

proof fn lemma_in_use(fs: Seq<FindingModel>, ws: Seq<WaiverModel>, i: int, k: int)
    requires
        0 <= i < fs.len(),
    ensures
        in_use(fs.take(i + 1), ws, k) == (in_use(fs.take(i), ws, k) || first_waiver(ws, fs[i])
            == Some(k)),
{
    let now = fs.take(i + 1);
    let before = fs.take(i);
    if in_use(before, ws, k) {
        let j = choose|j: int|
            0 <= j < before.len() && first_waiver(ws, #[trigger] before[j]) == Some(k);
        assert(now[j] == before[j]);
    }
    if first_waiver(ws, fs[i]) == Some(k) {
        assert(now[i] == fs[i]);
    }
    if in_use(now, ws, k) {
        let j = choose|j: int|
            0 <= j < now.len() && first_waiver(ws, #[trigger] now[j]) == Some(k);
        if j < i {
            assert(before[j] == now[j]);
        }
    }
}

// ---------------------------------------------------------------------------
// Laws
// ---------------------------------------------------------------------------

/// The first waiver about a finding is about it, and none before it is.
/// The first waiver about a finding is about it, and none before it is.
pub proof fn lemma_first_waiver(ws: Seq<WaiverModel>, f: FindingModel)
    ensures
        match first_waiver(ws, f) {
            Some(i) => 0 <= i < ws.len() && accepts(ws[i], f) && (forall|j: int|
                0 <= j < i ==> !accepts(#[trigger] ws[j], f)),
            None => forall|j: int| 0 <= j < ws.len() ==> !accepts(#[trigger] ws[j], f),
        },
    decreases ws.len(),
{
    if ws.len() > 0 && !accepts(ws[0], f) {
        let rest = ws.skip(1);
        lemma_first_waiver(rest, f);
        match first_waiver(rest, f) {
            Some(i) => {
                assert(rest[i] == ws[i + 1]);
                assert forall|j: int| 0 <= j < i + 1 implies !accepts(#[trigger] ws[j], f) by {
                    if j > 0 {
                        assert(rest[j - 1] == ws[j]);
                    }
                }
            },
            None => {
                assert forall|j: int| 0 <= j < ws.len() implies !accepts(#[trigger] ws[j], f) by {
                    if j > 0 {
                        assert(rest[j - 1] == ws[j]);
                    }
                }
            },
        }
    }
}

/// A waiver never hides a finding, and never changes what a fix applies: every
/// finding is still there, with its class, check, term and fix, and its
/// message still begins with what was found.
pub proof fn a_waiver_hides_nothing(fs: Seq<FindingModel>, ws: Seq<WaiverModel>, i: int)
    requires
        0 <= i < fs.len(),
    ensures
        all_waived(fs, ws).len() == fs.len(),
        ({
            let f = all_waived(fs, ws)[i];
            &&& f.class == fs[i].class
            &&& f.check == fs[i].check
            &&& f.term == fs[i].term
            &&& f.fix == fs[i].fix
            &&& f.fixed == fs[i].fixed
            &&& fs[i].message.is_prefix_of(f.message)
        }),
{
    let f = all_waived(fs, ws)[i];
    assert(fs[i].message =~= f.message.take(fs[i].message.len() as int));
}

/// The first matching waiver wins: a finding is accepted, with the note of the
/// first waiver about it and no other.
pub proof fn the_first_waiver_wins(f: FindingModel, ws: Seq<WaiverModel>, i: int)
    requires
        0 <= i < ws.len(),
        accepts(ws[i], f),
        forall|j: int| 0 <= j < i ==> !accepts(#[trigger] ws[j], f),
    ensures
        waived(f, ws).severity == ACCEPTED@,
        waived(f, ws).message == f.message + acceptance(ws[i]),
{
    lemma_first_waiver(ws, f);
    let k = first_waiver(ws, f)->Some_0;
    if k < i {
        assert(!accepts(ws[k], f));
    }
}

/// A finding that no waiver is about stays as it was.
pub proof fn other_findings_are_left_alone(f: FindingModel, ws: Seq<WaiverModel>)
    requires
        forall|j: int| 0 <= j < ws.len() ==> !accepts(#[trigger] ws[j], f),
    ensures
        waived(f, ws) == f,
{
    lemma_first_waiver(ws, f);
}

proof fn lemma_stale(fs: Seq<FindingModel>, ws: Seq<WaiverModel>, n: nat, j: int)
    requires
        0 <= j < n,
        !in_use(fs, ws, j),
    ensures
        stale_waivers(fs, ws, n).contains(stale_waiver(ws[j])),
    decreases n,
{
    let now = stale_waivers(fs, ws, n);
    if j == n - 1 {
        assert(now.last() == stale_waiver(ws[j]));
    } else {
        lemma_stale(fs, ws, (n - 1) as nat, j);
        let before = stale_waivers(fs, ws, (n - 1) as nat);
        let k = before.index_of(stale_waiver(ws[j]));
        assert(now[k] == stale_waiver(ws[j]));
    }
}

/// Every waiver either accepted a finding or is reported as stale.
pub proof fn an_unused_waiver_is_reported(
    fs: Seq<FindingModel>,
    ws: Seq<WaiverModel>,
    j: int,
)
    requires
        0 <= j < ws.len(),
    ensures
        in_use(fs, ws, j) || stale_waivers(fs, ws, ws.len()).contains(stale_waiver(ws[j])),
{
    if !in_use(fs, ws, j) {
        lemma_stale(fs, ws, ws.len(), j);
    }
}

/// A waiver that repeats an earlier one accepts nothing, and is reported.
pub proof fn a_repeated_waiver_is_stale(
    fs: Seq<FindingModel>,
    ws: Seq<WaiverModel>,
    i: int,
    j: int,
)
    requires
        0 <= i < j < ws.len(),
        ws[i].term == ws[j].term,
        ws[i].check == ws[j].check,
        ws[i].source == ws[j].source,
    ensures
        !in_use(fs, ws, j),
        stale_waivers(fs, ws, ws.len()).contains(stale_waiver(ws[j])),
{
    assert forall|k: int| 0 <= k < fs.len() implies first_waiver(ws, #[trigger] fs[k]) != Some(
        j,
    ) by {
        lemma_first_waiver(ws, fs[k]);
        if first_waiver(ws, fs[k]) == Some(j) {
            assert(accepts(ws[j], fs[k]));
            assert(!accepts(ws[i], fs[k]));
        }
    }
    lemma_stale(fs, ws, ws.len(), j);
}

}
