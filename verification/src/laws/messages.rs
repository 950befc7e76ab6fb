//! What the user is told and shown: progress, previews and edits of tokens.

use vstd::prelude::*;

use super::assets::lemma_effective;
use super::index::lemma_last_model;
use crate::completion::{block_item, module_item, slot_item, sub_item};
use crate::convert::{
    awaits_value, common_back, common_front, is_splice, spliced, SemanticToken, SemanticTokensEdit,
};
use crate::index::WorkspaceIndex;
use crate::preview::{key_of, law_kept_preview_is_found, step_of, CacheView, StepView};
use crate::progress::{completion_of, report_of, totals_of, IndexSummary, ScanProgress};
use crate::schema::{BlockType, ModuleSlot, ModuleType, SubBlock};
use crate::text::{byte_len, decimal, lower};

verus! {

/// A scan that passed nothing over and saved its cache ends without warnings, and any
/// other with them: the number of inputs that it passed over, whatever the reason, and
/// that the cache was not saved.
pub proof fn law_scans_end_with_their_warnings(summary: IndexSummary, outcome: Seq<char>)
    ensures
        ({
            let stats = summary.stats;
            let skipped = stats.discovery_failures + stats.fingerprint_failures
                + stats.scan_failures;
            let told = completion_of(summary, outcome);
            let counted = decimal(skipped as nat) + (" input"@ + (if skipped == 1 {
                ""@
            } else {
                "s"@
            }) + " skipped"@);
            let indexed = " — "@ + totals_of(summary) + " indexed"@;
            if stats.discovered_inputs == 0 && skipped == 0 {
                told == outcome + " — no indexable game data found"@
            } else if skipped == 0 && stats.cache_written {
                told == outcome + indexed
            } else if skipped == 0 {
                told == outcome + " with warnings"@ + indexed + "; "@
                    + "persistent cache not saved"@
            } else if stats.cache_written {
                told == outcome + " with warnings"@ + indexed + "; "@ + counted
            } else {
                told == outcome + " with warnings"@ + indexed + "; "@ + counted + ", "@
                    + "persistent cache not saved"@
            }
        }),
{
    let stats = summary.stats;
    let skipped = stats.discovery_failures + stats.fingerprint_failures + stats.scan_failures;
    let told = completion_of(summary, outcome);
    let counted = decimal(skipped as nat) + (" input"@ + (if skipped == 1 {
        ""@
    } else {
        "s"@
    }) + " skipped"@);
    let indexed = " — "@ + totals_of(summary) + " indexed"@;
    let unsaved = "persistent cache not saved"@;
    let warned = outcome + " with warnings"@;
    if stats.discovered_inputs == 0 && skipped == 0 {
    } else if skipped == 0 && stats.cache_written {
        assert(told =~= outcome + indexed);
    } else if skipped == 0 {
        assert(told =~= warned + indexed + "; "@ + unsaved);
    } else if stats.cache_written {
        assert(told =~= warned + indexed + "; "@ + counted);
    } else {
        assert(told =~= warned + indexed + "; "@ + counted + ", "@ + unsaved);
    }
}

/// A scan that found nothing to read is nearly done at once; one that found inputs
/// says how many of them it has checked.
pub proof fn law_reports_follow_the_scan(
    done: usize,
    total: usize,
    skipped: usize,
    hits: usize,
    misses: usize,
)
    ensures
        report_of(ScanProgress::InputsDiscovered { total: 0, skipped }).1 == Some(85int),
        total > 0 ==> report_of(ScanProgress::InputsDiscovered { total, skipped }).1 is None,
        total > 0 && skipped == 0 ==> report_of(ScanProgress::InputsDiscovered { total, skipped }).0
            == "Checking 0/"@ + decimal(total as nat) + " inputs"@,
        report_of(
            ScanProgress::Indexing { done, total, cache_hits: hits, cache_misses: misses },
        ).0 == "Checking "@ + decimal(done as nat) + "/"@ + decimal(total as nat) + " inputs — "@
            + decimal(hits as nat) + " cached, "@ + decimal(misses as nat) + " reparsed"@,
{
    let text = report_of(
        ScanProgress::Indexing { done, total, cache_hits: hits, cache_misses: misses },
    ).0;
    assert(text =~= "Checking "@ + decimal(done as nat) + "/"@ + decimal(total as nat)
        + " inputs — "@ + decimal(hits as nat) + " cached, "@ + decimal(misses as nat)
        + " reparsed"@);
}

/// A request of another kind, without a model or with too long a name is left alone,
/// and so is one for a model that the index does not know.
pub proof fn law_other_requests_are_left_alone(
    index: WorkspaceIndex,
    cache: CacheView,
    tag: Seq<char>,
    model: Seq<char>,
    enabled: bool,
    width: int,
    zoom: int,
)
    requires
        tag != "w3d-model-preview"@ || model.len() == 0 || byte_len(model) > 256 || (forall|i: int|
            0 <= i < index.model_rows().len() ==> lower((#[trigger] index.model_rows()[i]).item.name)
                != lower(model)),
    ensures
        step_of(index, cache, Some((tag, model)), enabled, width, zoom) is Unchanged,
        step_of(index, cache, None, enabled, width, zoom) is Unchanged,
{
    let rows = index.model_rows();
    lemma_effective(rows, lower(model), 0);
    if let Some(r) = crate::index::effective_model(rows, lower(model)) {
        let i = choose|i: int| 0 <= i < rows.len() && rows[i] == r;
        assert(lower(rows[i].item.name) == lower(model));
    }
}

/// A preview of a known model comes from the last file that holds the model. Where
/// previews are off there is none; where one is kept it is shown; else one is made, and
/// once it is kept the same request shows it.
pub proof fn law_known_models_are_previewed(
    index: WorkspaceIndex,
    cache: CacheView,
    model: Seq<char>,
    width: int,
    zoom: int,
    m: int,
    markdown: Seq<char>,
)
    requires
        cache.wf(),
        0 < model.len(),
        byte_len(model) <= 256,
        0 <= m < index.model_rows().len(),
        lower(index.model_rows()[m].item.name) == lower(model),
        forall|j: int|
            m < j < index.model_rows().len() ==> lower(
                (#[trigger] index.model_rows()[j]).item.name,
            ) != lower(model),
    ensures
        ({
            let request = Some(("w3d-model-preview"@, model));
            let key = key_of(model, index.model_rows()[m].file, width, zoom);
            let step = step_of(index, cache, request, true, width, zoom);
            let kept = cache.with(cache.generation, key, markdown);
            &&& step_of(index, cache, request, false, width, zoom) is NoDocumentation
            &&& cache.lookup(key) matches Some(text) ==> step == StepView::Show(text)
            &&& cache.lookup(key) is None ==> step == (StepView::Render {
                source: index.model_rows()[m].file,
                key,
                generation: cache.generation,
            })
            &&& step_of(index, kept, request, true, width, zoom) == StepView::Show(markdown)
        }),
{
    lemma_last_model(index.model_rows(), lower(model), m);
    law_kept_preview_is_found(
        cache,
        key_of(model, index.model_rows()[m].file, width, zoom),
        markdown,
    );
}

proof fn lemma_front_alike(a: Seq<SemanticToken>, b: Seq<SemanticToken>, i: int)
    requires
        0 <= i <= a.len(),
        i <= b.len(),
    ensures
        i <= common_front(a, b, i) <= a.len(),
        common_front(a, b, i) <= b.len(),
        forall|j: int| i <= j < common_front(a, b, i) ==> #[trigger] a[j] == b[j],
        common_front(a, b, i) < a.len() && common_front(a, b, i) < b.len() ==> a[common_front(
            a,
            b,
            i,
        )] != b[common_front(a, b, i)],
    decreases a.len() - i,
{
    if i < a.len() && i < b.len() && a[i] == b[i] {
        lemma_front_alike(a, b, i + 1);
    }
}

proof fn lemma_back_alike(a: Seq<SemanticToken>, b: Seq<SemanticToken>, front: int, n: int)
    requires
        0 <= front <= a.len(),
        front <= b.len(),
        0 <= n <= a.len() - front,
        n <= b.len() - front,
        forall|j: int| 0 <= j < n ==> a[a.len() - 1 - j] == #[trigger] b[b.len() - 1 - j],
    ensures
        ({
            let back = common_back(a, b, front, n);
            &&& n <= back <= a.len() - front
            &&& back <= b.len() - front
            &&& forall|j: int| 0 <= j < back ==> a[a.len() - 1 - j] == #[trigger] b[b.len() - 1 - j]
            &&& back < a.len() - front && back < b.len() - front ==> a[a.len() - 1 - back]
                != b[b.len() - 1 - back]
        }),
    decreases a.len() - front - n,
{
    if n < a.len() - front && n < b.len() - front && a[a.len() - 1 - n] == b[b.len() - 1 - n] {
        lemma_back_alike(a, b, front, n + 1);
    }
}

/// The edit of a list of tokens makes the new list of the old one, and is the least
/// that does: it begins and ends at tokens that differ, or where one list is used up.
pub proof fn law_token_edits_are_least(
    edit: SemanticTokensEdit,
    prev: Seq<SemanticToken>,
    next: Seq<SemanticToken>,
)
    requires
        is_splice(edit, prev, next),
    ensures
        spliced(prev, edit.start as int, edit.delete_count as int, edit.data@) == next,
        edit.delete_count > 0 && edit.data@.len() > 0 ==> prev[edit.start as int / 5]
            != edit.data@[0] && prev[edit.start as int / 5 + edit.delete_count as int / 5 - 1]
            != edit.data@.last(),
        prev == next ==> edit.delete_count == 0 && edit.data@.len() == 0,
{
    let front = common_front(prev, next, 0);
    lemma_front_alike(prev, next, 0);
    lemma_back_alike(prev, next, front, 0);
    let back = common_back(prev, next, front, 0);
    let out = spliced(prev, edit.start as int, edit.delete_count as int, edit.data@);
    assert(edit.start as int / 5 == front);
    assert(edit.delete_count as int / 5 == prev.len() - front - back);
    assert(out.len() == next.len());
    assert forall|i: int| 0 <= i < next.len() implies #[trigger] out[i] == next[i] by {
        if i < front {
            assert(prev[i] == next[i]);
        } else if i >= next.len() - back {
            let j = next.len() - 1 - i;
            assert(next[next.len() - 1 - j] == prev[prev.len() - 1 - j]);
        }
    }
    assert(out =~= next);
}

/// Module names are offered at once where a slot was put in, and not behind a block, a
/// sub-block or a module.
pub proof fn law_slots_await_their_module(
    slot: ModuleSlot,
    block: BlockType,
    sub: SubBlock,
    module: ModuleType,
    tag: Seq<char>,
)
    ensures
        slot_item(slot).insert matches Some(s) && awaits_value(s),
        block_item(block).insert matches Some(s) ==> !awaits_value(s),
        sub_item(sub).insert matches Some(s) ==> !awaits_value(s),
        module_item(module, tag).insert matches Some(s) ==> !awaits_value(s),
{
    reveal_strlit(" = $0");
    reveal_strlit("= $0");
    reveal_strlit("\n\t$0\nEnd");
    super::snippets::law_items_put_in_what_they_are_called(
        block,
        arbitrary_field(),
        sub,
        slot,
        module,
        tag,
    );
    let s = slot.keyword@ + " = $0"@;
    assert("= $0"@.is_suffix_of(s)) by {
        assert(s.subrange(s.len() - 4, s.len() as int) =~= "= $0"@);
    }
    lemma_ended(block_item(block).insert);
    lemma_ended(sub_item(sub).insert);
    lemma_ended(module_item(module, tag).insert);
}

spec fn arbitrary_field() -> crate::schema::Field {
    arbitrary()
}

proof fn lemma_ended(insert: Option<Seq<char>>)
    ensures
        insert matches Some(s) ==> "\n\t$0\nEnd"@.is_suffix_of(s) ==> !awaits_value(s),
{
    reveal_strlit("= $0");
    reveal_strlit("\n\t$0\nEnd");
    if let Some(s) = insert {
        let end = "\n\t$0\nEnd"@;
        if end.is_suffix_of(s) && "= $0"@.is_suffix_of(s) {
            let n = s.len() as int;
            assert(s.subrange(n - end.len(), n) =~= end);
            assert(s.subrange(n - 4, n) =~= "= $0"@);
            assert(s[n - 1] == end[end.len() - 1]);
            assert(s[n - 1] == "= $0"@[3]);
        }
    }
}

} // verus!
