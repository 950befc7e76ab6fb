//! What is reported of findings, edits and roots.

use vstd::prelude::*;

use super::numbers::{law_decimals_are_digits, law_decimals_read_back};
use super::text::{around, lacks, law_texts_part_at_the_first};
use crate::cli::{count_of, fails, human, stdin_count, OutputSeverity, OutputView};
use crate::numbers::digits_value;
use crate::session::{
    all_ranged, incoming_bytes, is_bulk, roots_of, severity_count, ContentChange,
};
use crate::text::{byte_len, decimal, is_digit};
use crate::values::{DiagnosticView, Severity};

verus! {

proof fn lemma_counts(findings: Seq<OutputView>, i: int)
    requires
        0 <= i <= findings.len(),
    ensures
        count_of(findings, OutputSeverity::Error, i) + count_of(
            findings,
            OutputSeverity::Warning,
            i,
        ) + count_of(findings, OutputSeverity::Hint, i) == findings.len() - i,
    decreases findings.len() - i,
{
    if i < findings.len() {
        lemma_counts(findings, i + 1);
    }
}

proof fn lemma_count_pushed(findings: Seq<OutputView>, f: OutputView, s: OutputSeverity, i: int)
    requires
        0 <= i <= findings.len(),
    ensures
        count_of(findings.push(f), s, i) == count_of(findings, s, i) + (if f.severity == s {
            1nat
        } else {
            0nat
        }),
    decreases findings.len() - i,
{
    let more = findings.push(f);
    if i < findings.len() {
        lemma_count_pushed(findings, f, s, i + 1);
        assert(more[i] == findings[i]);
    } else {
        assert(more[i] == f);
        assert(count_of(more, s, i + 1) == 0);
    }
}

/// Every finding is counted once: one more raises the count of its severity and no
/// other, and the counts add up to all of them.
pub proof fn law_findings_are_counted_once(
    findings: Seq<OutputView>,
    f: OutputView,
    s: OutputSeverity,
)
    ensures
        count_of(findings.push(f), s, 0) == count_of(findings, s, 0) + (if f.severity == s {
            1nat
        } else {
            0nat
        }),
        count_of(findings, OutputSeverity::Error, 0) + count_of(
            findings,
            OutputSeverity::Warning,
            0,
        ) + count_of(findings, OutputSeverity::Hint, 0) == findings.len(),
{
    lemma_counts(findings, 0);
    lemma_count_pushed(findings, f, s, 0);
}

/// An error is graver than a warning, and that than a hint: what fails a check fails
/// it with every graver finding in its place and with more findings beside it.
pub proof fn law_graver_findings_fail(
    findings: Seq<OutputView>,
    more: Seq<OutputView>,
    i: int,
    level: u8,
)
    requires
        0 <= i < findings.len(),
    ensures
        fails(findings, level) ==> fails(findings + more, level),
        fails(seq![findings[i]], level) ==> fails(findings, level),
        findings[i].severity is Error && level <= 3 ==> fails(findings, level),
        findings[i].severity is Warning ==> (fails(seq![findings[i]], level) <==> level <= 2),
        findings[i].severity is Hint ==> (fails(seq![findings[i]], level) <==> level <= 1),
        !fails(Seq::empty(), level),
{
    let all = findings + more;
    let one = seq![findings[i]];
    if fails(findings, level) {
        let k = choose|k: int|
            0 <= k < findings.len() && (#[trigger] findings[k]).severity.level() >= level;
        assert(all[k] == findings[k]);
    }
    assert(one[0] == findings[i]);
}

proof fn lemma_line(d: OutputView)
    requires
        0 <= d.start.0,
        0 <= d.start.1,
    ensures
        ({
            let line = decimal(d.start.0 as nat);
            let column = decimal(d.start.1 as nat);
            let rest = " "@ + around(
                d.severity.word(),
                '[',
                around(d.code, ']', ": "@ + d.message),
            );
            &&& human(d) == d.file + ":"@ + around(line, ':', around(column, ':', rest))
            &&& lacks(line, ':')
            &&& lacks(column, ':')
            &&& lacks(d.severity.word(), '[')
        }),
{
    reveal_strlit(":");
    reveal_strlit(" ");
    reveal_strlit(": ");
    reveal_strlit("[");
    reveal_strlit("]: ");
    reveal_strlit("error");
    reveal_strlit("warning");
    reveal_strlit("hint");
    let line = decimal(d.start.0 as nat);
    let column = decimal(d.start.1 as nat);
    let rest = " "@ + around(d.severity.word(), '[', around(d.code, ']', ": "@ + d.message));
    assert(": "@ =~= seq![':'] + " "@);
    assert("]: "@ =~= seq![']'] + ": "@);
    assert("["@ =~= seq!['[']);
    assert(":"@ =~= seq![':']);
    assert(human(d) =~= d.file + ":"@ + around(line, ':', around(column, ':', rest)));
    law_decimals_are_digits(d.start.0 as nat);
    law_decimals_are_digits(d.start.1 as nat);
    assert forall|i: int| 0 <= i < line.len() implies #[trigger] line[i] != ':' by {
        assert(is_digit(line[i]));
    }
    assert forall|i: int| 0 <= i < column.len() implies #[trigger] column[i] != ':' by {
        assert(is_digit(column[i]));
    }
}

proof fn lemma_words(a: OutputSeverity, b: OutputSeverity)
    requires
        a.word() == b.word(),
    ensures
        a == b,
{
    reveal_strlit("error");
    reveal_strlit("warning");
    reveal_strlit("hint");
    assert("error"@.len() == 5);
    assert("warning"@.len() == 7);
    assert("hint"@.len() == 4);
}

proof fn lemma_cut(front: Seq<char>, a: Seq<char>, b: Seq<char>)
    requires
        front + a == front + b,
    ensures
        a == b,
{
    assert((front + a).skip(front.len() as int) =~= a);
    assert((front + b).skip(front.len() as int) =~= b);
}

/// Two findings of a file are written as the same line only where place, severity,
/// code and message are the same.
pub proof fn law_lines_tell_findings_apart(d: OutputView, e: OutputView)
    requires
        d.file == e.file,
        0 <= d.start.0,
        0 <= d.start.1,
        0 <= e.start.0,
        0 <= e.start.1,
        lacks(d.code, ']'),
        lacks(e.code, ']'),
    ensures
        human(d) == human(e) <==> d.start == e.start && d.severity == e.severity && d.code == e.code
            && d.message == e.message,
{
    if human(d) == human(e) {
        lemma_line(d);
        lemma_line(e);
        let (l1, c1) = (decimal(d.start.0 as nat), decimal(d.start.1 as nat));
        let (l2, c2) = (decimal(e.start.0 as nat), decimal(e.start.1 as nat));
        let m1 = ": "@ + d.message;
        let m2 = ": "@ + e.message;
        let k1 = around(d.code, ']', m1);
        let k2 = around(e.code, ']', m2);
        let s1 = around(d.severity.word(), '[', k1);
        let s2 = around(e.severity.word(), '[', k2);
        let r1 = " "@ + s1;
        let r2 = " "@ + s2;
        lemma_cut(
            d.file + ":"@,
            around(l1, ':', around(c1, ':', r1)),
            around(l2, ':', around(c2, ':', r2)),
        );
        law_texts_part_at_the_first(l1, ':', around(c1, ':', r1));
        law_texts_part_at_the_first(l2, ':', around(c2, ':', r2));
        law_texts_part_at_the_first(c1, ':', r1);
        law_texts_part_at_the_first(c2, ':', r2);
        lemma_cut(" "@, s1, s2);
        law_texts_part_at_the_first(d.severity.word(), '[', k1);
        law_texts_part_at_the_first(e.severity.word(), '[', k2);
        law_texts_part_at_the_first(d.code, ']', m1);
        law_texts_part_at_the_first(e.code, ']', m2);
        lemma_cut(": "@, d.message, e.message);
        lemma_words(d.severity, e.severity);
        law_decimals_read_back(d.start.0 as nat);
        law_decimals_read_back(d.start.1 as nat);
        law_decimals_read_back(e.start.0 as nat);
        law_decimals_read_back(e.start.1 as nat);
        assert(digits_value(l1) == digits_value(l2));
        assert(digits_value(c1) == digits_value(c2));
    }
}

proof fn lemma_roots(list: Seq<Option<Seq<char>>>, p: Seq<char>)
    ensures
        crate::session::local_roots(list).contains(p) <==> list.contains(Some(p)),
    decreases list.len(),
{
    let roots = crate::session::local_roots(list);
    if list.len() > 0 {
        let front = list.drop_last();
        lemma_roots(front, p);
        let before = crate::session::local_roots(front);
        assert(list =~= front.push(list.last()));
        if list.contains(Some(p)) {
            let k = choose|k: int| 0 <= k < list.len() && list[k] == Some(p);
            if k < front.len() {
                assert(front[k] == Some(p));
                let j = choose|j: int| 0 <= j < before.len() && before[j] == p;
                assert(roots[j] == p);
            } else {
                assert(roots[before.len() as int] == p);
            }
        }
        if roots.contains(p) {
            let k = choose|k: int| 0 <= k < roots.len() && roots[k] == p;
            if k < before.len() {
                assert(before[k] == p);
                let j = choose|j: int| 0 <= j < front.len() && front[j] == Some(p);
                assert(list[j] == Some(p));
            } else {
                assert(list[list.len() - 1] == Some(p));
            }
        }
    }
}

/// The folders that are on disk are the roots, whatever the single root is; it counts
/// only where no folders are named.
pub proof fn law_folders_are_the_roots(
    list: Seq<Option<Seq<char>>>,
    root: Option<Seq<char>>,
    path: Seq<char>,
)
    ensures
        roots_of(Some(list), root).contains(path) <==> list.contains(Some(path)),
        roots_of(None, root).contains(path) <==> root == Some(path),
        roots_of(None, root).len() <= 1,
        roots_of(Some(list.push(Some(path))), root) == roots_of(Some(list), root).push(path),
        roots_of(Some(list.push(None)), root) == roots_of(Some(list), root),
{
    lemma_roots(list, path);
    assert(list.push(Some(path)).drop_last() =~= list);
    assert(list.push(None).drop_last() =~= list);
    if let Some(p) = root {
        assert(roots_of(None, root)[0] == p);
    }
}

proof fn lemma_severities(list: Seq<DiagnosticView>)
    ensures
        severity_count(list, Severity::Error) + severity_count(list, Severity::Warning)
            + severity_count(list, Severity::Hint) == list.len(),
    decreases list.len(),
{
    if list.len() > 0 {
        lemma_severities(list.drop_last());
    }
}

/// Every finding counts for its own severity, and the counts add up to all of them.
pub proof fn law_severities_add_up(list: Seq<DiagnosticView>, d: DiagnosticView, s: Severity)
    ensures
        severity_count(list.push(d), s) == severity_count(list, s) + (if d.severity == s {
            1nat
        } else {
            0nat
        }),
        severity_count(list, Severity::Error) + severity_count(list, Severity::Warning)
            + severity_count(list, Severity::Hint) == list.len(),
{
    lemma_severities(list);
    assert(list.push(d).drop_last() =~= list);
}

proof fn lemma_one_of_many(changes: Seq<ContentChange>, k: int)
    requires
        0 <= k < changes.len(),
    ensures
        incoming_bytes(changes) >= byte_len(changes[k].text@),
    decreases changes.len(),
{
    if k < changes.len() - 1 {
        assert(changes.drop_last()[k] == changes[k]);
        lemma_one_of_many(changes.drop_last(), k);
    }
}

proof fn lemma_small_ones(changes: Seq<ContentChange>, most: nat)
    requires
        forall|k: int| 0 <= k < changes.len() ==> byte_len((#[trigger] changes[k]).text@) <= most,
    ensures
        incoming_bytes(changes) <= changes.len() * most,
    decreases changes.len(),
{
    if changes.len() > 0 {
        let front = changes.drop_last();
        assert forall|k: int| 0 <= k < front.len() implies byte_len((#[trigger] front[k]).text@)
            <= most by {
            assert(front[k] == changes[k]);
        }
        lemma_small_ones(front, most);
        let n = front.len();
        assert((n + 1) * most == n * most + most) by (nonlinear_arith);
        assert(changes[changes.len() - 1] == changes.last());
    }
}

/// Many partial edits are taken together, and so are two or more of which one brings
/// much text; a single edit, a replacement of the whole text among them and a few
/// small edits are not.
pub proof fn law_many_edits_are_taken_together(changes: Seq<ContentChange>, k: int)
    requires
        0 <= k < changes.len(),
    ensures
        changes.len() > 8 && all_ranged(changes) ==> is_bulk(changes),
        changes.len() > 1 && byte_len(changes[k].text@) > 32768 && all_ranged(changes) ==> is_bulk(
            changes,
        ),
        changes[k].range is None ==> !is_bulk(changes),
        changes.len() == 1 ==> !is_bulk(changes),
        changes.len() <= 8 && (forall|j: int|
            0 <= j < changes.len() ==> byte_len((#[trigger] changes[j]).text@) <= 4096) ==> !is_bulk(
            changes,
        ),
{
    lemma_one_of_many(changes, k);
    if changes.len() <= 8 && (forall|j: int|
        0 <= j < changes.len() ==> byte_len((#[trigger] changes[j]).text@) <= 4096) {
        lemma_small_ones(changes, 4096);
    }
}

proof fn lemma_inputs_pushed(targets: Seq<Seq<char>>, t: Seq<char>, i: int)
    requires
        0 <= i <= targets.len(),
    ensures
        stdin_count(targets.push(t), i) == stdin_count(targets, i) + (if t == "-"@ {
            1nat
        } else {
            0nat
        }),
    decreases targets.len() - i,
{
    let more = targets.push(t);
    if i < targets.len() {
        lemma_inputs_pushed(targets, t, i + 1);
        assert(more[i] == targets[i]);
    } else {
        assert(more[i] == t);
        assert(stdin_count(more, i + 1) == 0);
    }
}

/// Standard input is counted once for every `-` among the targets.
pub proof fn law_standard_inputs_are_counted(targets: Seq<Seq<char>>, t: Seq<char>)
    ensures
        stdin_count(Seq::empty(), 0) == 0,
        stdin_count(targets.push(t), 0) == stdin_count(targets, 0) + (if t == "-"@ {
            1nat
        } else {
            0nat
        }),
{
    lemma_inputs_pushed(targets, t, 0);
}

} // verus!
