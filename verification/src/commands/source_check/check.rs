//! The whole source pass: refresh the lock, report the findings, and apply
//! the safe fixes.

use vstd::prelude::*;

use crate::commands::audit::{findings_of, Finding};
use crate::commands::source_check::fixes::{
    apply_dead_link_fixes, apply_pin_fixes, dead_entries, pin_fixes, FixModel,
};
use crate::commands::source_check::pass::{run_from, Pass, PassModel};
use crate::commands::source_check::term::writes_of;
use crate::commands::source_check::web::{Request, SourceOptions, Web};
use crate::commands::sources::{
    all_sources, build, lock_of, opt_lock, sources_of_files, EntryModel, Lock, TermModel,
};
use crate::markdown::{files, FileModel, NodeFile};
use crate::order::{lemma_strictly_ascending_unique, strictly_ascending};

verus! {

/// What a finished pass hands out: the lock as it is to be written, and the
/// findings.
pub struct Checked {
    pub lock: Lock,
    pub findings: Vec<Finding>,
}

/// The keys of a lock in order.
pub open spec fn are_keys(lock: Map<Seq<char>, EntryModel>, keys: Seq<Seq<char>>) -> bool {
    strictly_ascending(keys) && forall|k: Seq<char>| #[trigger]
        keys.contains(k) <==> lock.dom().contains(k)
}

/// The keys of a lock in order.
pub open spec fn keys_of(lock: Map<Seq<char>, EntryModel>) -> Seq<Seq<char>> {
    choose|keys: Seq<Seq<char>>| are_keys(lock, keys)
}

/// A pass over the lock of nodes, with nothing checked yet.
pub open spec fn first_pass(
    all: Seq<TermModel>,
    existing: Map<Seq<char>, EntryModel>,
) -> PassModel {
    PassModel {
        keys: keys_of(lock_of(all, existing)),
        lock: lock_of(all, existing),
        findings: Seq::empty(),
        writes: Seq::empty(),
        down: Map::empty(),
        next: 0,
    }
}

/// The nodes and the findings after the safe fixes of a pass.
pub open spec fn after_fixes(all: Seq<FileModel>, p: PassModel, fix: bool) -> FixModel {
    let before = FixModel { files: all, findings: p.findings };
    if fix {
        pin_fixes(
            dead_entries(before, p.lock, p.keys, p.keys.len()),
            p.writes,
            p.writes.len(),
        )
    } else {
        before
    }
}

/// A lock has one list of keys in order.
pub proof fn lemma_keys_of(lock: Map<Seq<char>, EntryModel>, keys: Seq<Seq<char>>)
    requires
        are_keys(lock, keys),
    ensures
        keys_of(lock) == keys,
{
    let chosen = keys_of(lock);
    assert(are_keys(lock, chosen));
    assert forall|y: Seq<char>| keys.contains(y) <==> #[trigger] chosen.contains(y) by {
        assert(keys.contains(y) <==> lock.dom().contains(y));
    }
    lemma_strictly_ascending_unique(keys, chosen);
}

/// What a finished pass comes to; with `fix` the nodes are left fixed.
pub fn finish(pass: Pass, nodes: &mut Vec<NodeFile>, fix: bool) -> (r: Checked)
    ensures
        r.lock@ == pass@.lock,
        (FixModel { files: files(final(nodes)@), findings: findings_of(r.findings@) })
            == after_fixes(files(old(nodes)@), pass@, fix),
{
    let mut findings = pass.findings;
    if fix {
        apply_dead_link_fixes(nodes, &pass.lock, &mut findings);
        apply_pin_fixes(nodes, &pass.writes, &mut findings);
        assert(writes_of(pass.writes@).len() == pass.writes@.len());
    }
    Checked { lock: pass.lock, findings }
}

/// Run the source pass over what has been fetched: refresh the lock, give the
/// findings, and apply the fixes when `fix` is set. When something has still
/// to be fetched, the result is what, and the nodes stay as they are.
pub fn check(
    nodes: &mut Vec<NodeFile>,
    existing: Option<&Lock>,
    opts: &SourceOptions,
    now: &str,
    web: &Web,
    fix: bool,
) -> (r: Result<Checked, Request>)
    ensures
        ({
            let all = sources_of_files(files(old(nodes)@));
            let run = run_from(
                all,
                web@,
                opts.archive_web@,
                now@,
                first_pass(all, opt_lock(existing)),
            );
            &&& are_keys(
                lock_of(all, opt_lock(existing)),
                first_pass(all, opt_lock(existing)).keys,
            )
            &&& match r {
                Ok(done) => {
                    &&& run.1 is None
                    &&& done.lock@ == run.0.lock
                    &&& (FixModel {
                        files: files(final(nodes)@),
                        findings: findings_of(done.findings@),
                    }) == after_fixes(files(old(nodes)@), run.0, fix)
                },
                Err(request) => run.1 == Some(request@) && files(final(nodes)@) == files(
                    old(nodes)@,
                ),
            }
        }),
{
    let ghost every = files(nodes@);
    let all = match build(nodes, None) {
        Ok(all) => all,
        Err(_) => Vec::new(),
    };
    assert(all_sources(all@) == sources_of_files(every));
    let mut pass = Pass::start(&all, existing);
    proof {
        let lock = lock_of(sources_of_files(every), opt_lock(existing));
        assert(are_keys(lock, pass@.keys));
        lemma_keys_of(lock, pass@.keys);
        assert(pass@ == first_pass(sources_of_files(every), opt_lock(existing)));
    }
    match pass.advance(&all, opts, now, web) {
        Some(request) => Err(request),
        None => Ok(finish(pass, nodes, fix)),
    }
}

}
