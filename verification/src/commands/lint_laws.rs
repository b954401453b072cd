//! What a run over the nodes reports.

use vstd::prelude::*;

use crate::commands::lint::{
    closing_line, content_named, error_total, failing_total, file_name, file_names, file_results,
    lint_failure, lint_results, marked_lines, node_findings, node_names, result_text, results_text,
    single_text, unlinked, warning_total, FindingsModel, ResultModel,
};
use crate::markdown::FileModel;
use crate::number::decimal;
use crate::order::{ascending, lemma_contains_last, lemma_sorted, sorted};
use crate::text::{first_of, lemma_first_of, starts};

verus! {

// ---------------------------------------------------------------------------
// Which files are reported
// ---------------------------------------------------------------------------

/// The first node of a term.
pub open spec fn first_named(all: Seq<FileModel>, i: int) -> bool {
    0 <= i < all.len() && forall|j: int| 0 <= j < i ==> (#[trigger] all[j]).term != all[i].term
}

/// What is found in a node, as it is reported.
pub open spec fn result_for(all: Seq<FileModel>, i: int) -> ResultModel {
    let found = node_findings(
        all[i].content,
        all[i].term + ".md"@,
        Seq::new(all.len(), |k: int| all[k].term),
    );
    ResultModel { file: all[i].term + ".md"@, errors: found.errors, warnings: found.warnings }
}

proof fn lemma_file_name(a: Seq<char>, b: Seq<char>)
    requires
        file_name(a) == file_name(b),
    ensures
        a == b,
{
    assert(file_name(a).len() == a.len() + ".md"@.len());
    assert(file_name(b).len() == b.len() + ".md"@.len());
    assert(file_name(a).take(a.len() as int) =~= a);
    assert(file_name(b).take(b.len() as int) =~= b);
}

proof fn lemma_content_named(all: Seq<FileModel>, i: int)
    requires
        first_named(all, i),
    ensures
        content_named(all, file_name(all[i].term)) == all[i].content,
    decreases i,
{
    if i == 0 {
    } else {
        if file_name(all[0].term) == file_name(all[i].term) {
            lemma_file_name(all[0].term, all[i].term);
        }
        let rest = all.skip(1);
        assert(rest[i - 1] == all[i]);
        assert forall|j: int| 0 <= j < i - 1 implies (#[trigger] rest[j]).term != all[i].term by {
            assert(rest[j] == all[j + 1]);
        }
        lemma_content_named(rest, i - 1);
    }
}

/// The result for a file name.
spec fn named_result(all: Seq<FileModel>, name: Seq<char>) -> ResultModel {
    let found = node_findings(content_named(all, name), name, node_names(all));
    ResultModel { file: name, errors: found.errors, warnings: found.warnings }
}

proof fn lemma_file_results(all: Seq<FileModel>, names: Seq<Seq<char>>, r: ResultModel)
    ensures
        file_results(all, names).contains(r) <==> names.contains(r.file) && r == named_result(
            all,
            r.file,
        ) && (r.errors.len() > 0 || r.warnings.len() > 0),
    decreases names.len(),
{
    if names.len() > 0 {
        let front = names.drop_last();
        lemma_file_results(all, front, r);
        lemma_contains_last(names, r.file);
        let list = file_results(all, names);
        let here = named_result(all, names.last());
        if here.errors.len() > 0 || here.warnings.len() > 0 {
            assert(list.drop_last() =~= file_results(all, front));
            assert(list.last() == here);
            lemma_contains_last(list, r);
        }
    }
}

/// A node is reported just if something was found in it, under its file name
/// and with all that was found.
pub proof fn a_node_is_reported_for_what_was_found(all: Seq<FileModel>, i: int)
    requires
        first_named(all, i),
    ensures
        lint_results(all).contains(result_for(all, i)) <==> result_for(all, i).errors.len() > 0
            || result_for(all, i).warnings.len() > 0,
        forall|k: int|
            0 <= k < lint_results(all).len() && (#[trigger] lint_results(all)[k]).file
                == all[i].term + ".md"@ ==> lint_results(all)[k] == result_for(all, i),
{
    let names = sorted(file_names(all));
    let name = file_name(all[i].term);
    lemma_sorted(file_names(all));
    lemma_content_named(all, i);
    assert(file_names(all)[i] == name);
    assert(file_names(all).contains(name));
    assert(names.contains(name));
    assert(node_names(all) =~= Seq::new(all.len(), |k: int| all[k].term));
    assert(named_result(all, name) == result_for(all, i));
    lemma_file_results(all, names, result_for(all, i));
    assert forall|k: int|
        0 <= k < lint_results(all).len() && (#[trigger] lint_results(all)[k]).file == all[i].term
            + ".md"@ implies lint_results(all)[k] == result_for(all, i) by {
        let r = lint_results(all)[k];
        assert(lint_results(all).contains(r));
        lemma_file_results(all, names, r);
    }
}

/// What is reported belongs to a node, and the files stand in order.
pub proof fn results_stand_in_the_order_of_the_files(all: Seq<FileModel>)
    ensures
        forall|k: int|
            0 <= k < lint_results(all).len() ==> exists|i: int|
                0 <= i < all.len() && (#[trigger] lint_results(all)[k]).file == (
                #[trigger] all[i]).term + ".md"@,
        ascending(Seq::new(lint_results(all).len(), |k: int| lint_results(all)[k].file)),
{
    let names = sorted(file_names(all));
    lemma_sorted(file_names(all));
    assert forall|k: int| 0 <= k < lint_results(all).len() implies exists|i: int|
        0 <= i < all.len() && (#[trigger] lint_results(all)[k]).file == (#[trigger] all[i]).term
            + ".md"@ by {
        let r = lint_results(all)[k];
        assert(lint_results(all).contains(r));
        lemma_file_results(all, names, r);
        assert(file_names(all).contains(r.file));
        let i = choose|i: int| 0 <= i < file_names(all).len() && file_names(all)[i] == r.file;
        assert(r.file == all[i].term + ".md"@);
    }
    lemma_ascending_results(all, names);
}

proof fn lemma_ascending_results(all: Seq<FileModel>, names: Seq<Seq<char>>)
    requires
        ascending(names),
    ensures
        ascending(Seq::new(file_results(all, names).len(), |k: int| file_results(all, names)[k].file)),
    decreases names.len(),
{
    if names.len() > 0 {
        let front = names.drop_last();
        let list = file_results(all, names);
        let before = file_results(all, front);
        assert forall|i: int, j: int| 0 <= i < j < front.len() implies !crate::order::before(
            #[trigger] front[j],
            #[trigger] front[i],
        ) by {
            assert(front[i] == names[i] && front[j] == names[j]);
        }
        lemma_ascending_results(all, front);
        let files = Seq::new(list.len(), |k: int| list[k].file);
        let earlier = Seq::new(before.len(), |k: int| before[k].file);
        if list.len() > before.len() {
            assert forall|i: int, j: int| 0 <= i < j < files.len() implies !crate::order::before(
                #[trigger] files[j],
                #[trigger] files[i],
            ) by {
                assert(list[i] == before[i]);
                assert(earlier[i] == files[i]);
                if j < before.len() {
                    assert(earlier[j] == files[j]);
                } else {
                    assert(before.contains(before[i]));
                    lemma_file_results(all, front, before[i]);
                    let m = choose|m: int| 0 <= m < front.len() && front[m] == before[i].file;
                    assert(names[m] == files[i]);
                    assert(names[names.len() - 1] == files[j]);
                }
            }
        } else {
            assert(files =~= earlier);
        }
    }
}

// ---------------------------------------------------------------------------
// What is printed
// ---------------------------------------------------------------------------

proof fn lemma_marked_more(mark: Seq<char>, list: Seq<Seq<char>>, x: Seq<char>, n: nat)
    requires
        n <= list.len(),
    ensures
        marked_lines(mark, list.push(x), n) == marked_lines(mark, list, n),
    decreases n,
{
    if n > 0 {
        lemma_marked_more(mark, list, x, (n - 1) as nat);
    }
}

/// A result is printed as the file name on a line, then a line for each error
/// and then one for each warning.
pub proof fn a_finding_is_printed_on_a_line(
    file: Seq<char>,
    errors: Seq<Seq<char>>,
    warnings: Seq<Seq<char>>,
    x: Seq<char>,
)
    ensures
        result_text(file, Seq::empty(), Seq::empty()) == file + ":\n"@,
        result_text(file, errors.push(x), Seq::empty()) == result_text(file, errors, Seq::empty())
            + "  - "@ + x + "\n"@,
        result_text(file, errors, warnings.push(x)) == result_text(file, errors, warnings)
            + "  - warn: "@ + x + "\n"@,
{
    let e = marked_lines("  - "@, errors, errors.len());
    let w = marked_lines("  - warn: "@, warnings, warnings.len());
    let none = Seq::<Seq<char>>::empty();
    assert(marked_lines("  - "@, none, none.len()) =~= Seq::empty());
    assert(marked_lines("  - warn: "@, none, none.len()) =~= Seq::empty());
    lemma_marked_more("  - "@, errors, x, errors.len());
    lemma_marked_more("  - warn: "@, warnings, x, warnings.len());
    assert(errors.push(x)[errors.len() as int] == x);
    assert(warnings.push(x)[warnings.len() as int] == x);
    assert(file + ":\n"@ + Seq::empty() + Seq::empty() =~= file + ":\n"@);
    lemma_tail(file + ":\n"@, e, "  - "@, x);
    lemma_tail(file + ":\n"@ + e, w, "  - warn: "@, x);
    let more = marked_lines("  - "@, errors.push(x), errors.push(x).len());
    assert(more == e + "  - "@ + x + "\n"@);
    assert(file + ":\n"@ + more + Seq::empty() =~= file + ":\n"@ + more);
    assert(file + ":\n"@ + e + Seq::empty() =~= file + ":\n"@ + e);
}

proof fn lemma_tail(a: Seq<char>, b: Seq<char>, mark: Seq<char>, x: Seq<char>)
    ensures
        a + (b + mark + x + "\n"@) == a + b + mark + x + "\n"@,
{
    assert(a + (b + mark + x + "\n"@) =~= a + b + mark + x + "\n"@);
}

/// The results are printed one after the other, an empty line behind each.
pub proof fn results_are_printed_in_turn(list: Seq<ResultModel>, r: ResultModel)
    ensures
        results_text(Seq::empty(), 0) == Seq::<char>::empty(),
        results_text(list.push(r), list.len() + 1) == results_text(list, list.len()) + result_text(
            r.file,
            r.errors,
            r.warnings,
        ) + "\n"@,
{
    lemma_results_more(list, r, list.len());
}

proof fn lemma_results_more(list: Seq<ResultModel>, r: ResultModel, n: nat)
    requires
        n <= list.len(),
    ensures
        results_text(list.push(r), n) == results_text(list, n),
        error_total(list.push(r), n) == error_total(list, n),
        warning_total(list.push(r), n) == warning_total(list, n),
        failing_total(list.push(r), n) == failing_total(list, n),
    decreases n,
{
    if n > 0 {
        lemma_results_more(list, r, (n - 1) as nat);
    }
}

/// A further result adds its errors and its warnings to the totals, and
/// itself to the failing files if it has an error.
pub proof fn totals_count_each_result(list: Seq<ResultModel>, r: ResultModel)
    ensures
        error_total(Seq::empty(), 0) == 0 && warning_total(Seq::empty(), 0) == 0 && failing_total(
            Seq::empty(),
            0,
        ) == 0,
        error_total(list.push(r), list.len() + 1) == error_total(list, list.len())
            + r.errors.len(),
        warning_total(list.push(r), list.len() + 1) == warning_total(list, list.len())
            + r.warnings.len(),
        r.errors.len() == 0 ==> failing_total(list.push(r), list.len() + 1) == failing_total(
            list,
            list.len(),
        ),
        r.errors.len() > 0 ==> failing_total(list.push(r), list.len() + 1) == failing_total(
            list,
            list.len(),
        ) + 1,
{
    lemma_results_more(list, r, list.len());
}

/// A run ends with a line that says how many errors there are in how many
/// files, and how many warnings; a run without errors passes.
pub proof fn a_run_ends_with_its_totals(list: Seq<ResultModel>)
    ensures
        ({
            let n = list.len();
            let errors = error_total(list, n);
            let warnings = warning_total(list, n);
            &&& errors > 0 ==> closing_line(list) == decimal(errors) + " error(s) in "@ + decimal(
                failing_total(list, n),
            ) + " file(s), "@ + decimal(warnings) + " warning(s).\n"@
            &&& errors == 0 && warnings > 0 ==> closing_line(list)
                == "All nodes pass lint checks ("@ + decimal(warnings) + " warning(s)).\n"@
            &&& errors == 0 && warnings == 0 ==> closing_line(list)
                == "All nodes pass lint checks.\n"@
            &&& errors > 0 ==> lint_failure(errors) == Some(decimal(errors) + " lint error(s) found"@)
        }),
{
}

/// A single file is reported as good, or with what was found.
pub proof fn a_single_file_is_good_or_told(file: Seq<char>, found: FindingsModel)
    ensures
        found.errors.len() == 0 && found.warnings.len() == 0 ==> single_text(file, found) == file
            + ": OK\n"@,
        found.errors.len() > 0 || found.warnings.len() > 0 ==> single_text(file, found)
            == result_text(file, found.errors, found.warnings),
{
}

// ---------------------------------------------------------------------------
// Headings
// ---------------------------------------------------------------------------

proof fn lemma_first_place(a: Seq<char>, p: Seq<char>, b: Seq<char>)
    requires
        p.len() > 0,
        !a.contains(p[0]),
    ensures
        first_of(a + p + b, p) == Some(a.len() as int),
    decreases a.len(),
{
    let s = a + p + b;
    if a.len() == 0 {
        assert(s.take(p.len() as int) =~= p);
    } else {
        assert(s[0] == a[0]);
        assert(a.contains(a[0]));
        assert(!starts(s, p)) by {
            if starts(s, p) {
                assert(s.take(p.len() as int)[0] == s[0]);
            }
        }
        let rest = a.skip(1);
        assert(!rest.contains(p[0])) by {
            if rest.contains(p[0]) {
                let k = choose|k: int| 0 <= k < rest.len() && rest[k] == p[0];
                assert(a[k + 1] == p[0]);
            }
        }
        lemma_first_place(rest, p, b);
        assert(s.skip(1) =~= rest + p + b);
    }
}

/// A link in a heading reads as its text, and what follows it is read
/// likewise; a heading without a bracket reads as it stands.
pub proof fn a_link_reads_as_its_text(
    a: Seq<char>,
    text: Seq<char>,
    target: Seq<char>,
    b: Seq<char>,
)
    requires
        !a.contains('['),
        !text.contains(']'),
        !target.contains(')'),
    ensures
        unlinked(a + "["@ + text + "]("@ + target + ")"@ + b) == a + text + unlinked(b),
        unlinked(a) == a,
{
    let s = a + "["@ + text + "]("@ + target + ")"@ + b;
    reveal_strlit("[");
    reveal_strlit("](");
    reveal_strlit(")");
    let open = a.len() as int;
    let from_open = "["@ + text + "]("@ + target + ")"@ + b;
    assert(s =~= a + "["@ + (text + "]("@ + target + ")"@ + b));
    lemma_first_place(a, "["@, text + "]("@ + target + ")"@ + b);
    assert(s.skip(open) =~= from_open);
    let head = "["@ + text;
    assert(!head.contains(']')) by {
        if head.contains(']') {
            let k = choose|k: int| 0 <= k < head.len() && head[k] == ']';
            if k > 0 {
                assert(text[k - 1] == ']');
            }
        }
    }
    assert(from_open =~= head + "]("@ + (target + ")"@ + b));
    lemma_first_place(head, "]("@, target + ")"@ + b);
    let close = head.len() as int;
    let from_close = "]("@ + target + ")"@ + b;
    assert(s.skip(open + close) =~= from_close);
    let stem = "]("@ + target;
    assert(!stem.contains(')')) by {
        if stem.contains(')') {
            let k = choose|k: int| 0 <= k < stem.len() && stem[k] == ')';
            if k > 1 {
                assert(target[k - 2] == ')');
            }
        }
    }
    assert(from_close =~= stem + ")"@ + b);
    lemma_first_place(stem, ")"@, b);
    let end = stem.len() as int;
    assert(s.skip(open + close + end + 1) =~= b);
    assert(s.take(open) =~= a);
    assert(s.subrange(open + 1, open + close) =~= text);
    lemma_first_of(a, "["@);
    if first_of(a, "["@) is Some {
        let k = first_of(a, "["@)->Some_0;
        assert(a.skip(k).take(1)[0] == a[k]);
        assert(a.contains(a[k]));
    }
}

}
