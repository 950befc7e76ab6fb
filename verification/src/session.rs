//! The decisions of an editing session: how edits reach a document, which
//! results are still wanted when they are ready, and what requests are
//! answered.

use vstd::prelude::*;

use crate::convert::{
    apply_change, changed, is_splice, offset_of, position_to_offset, range_of, semantic_tokens_splice,
    to_lsp_diagnostic, DiagnosticItem, PositionEnc, Range, SemanticToken,
    SemanticTokensEdit,
};
use crate::diagnostics::{
    cached_diags, child_count, context_generation, counted, diagnose_with_cache, document_diags,
    entries_sound, entry_views, hit_count, live_entries, next_entries, DiagnosticsCache,
};
use crate::index::{is_override_layer, override_layer};
use crate::rope::rope_text;
use crate::scopes::in_override_layer;
use crate::text::{byte_len, bytes_in, decimal, join3, join5, push_char, same, texts};
use crate::values::{diags, Ctx, Diagnostic, DiagnosticView, Severity};

verus! {

/// How many edits a batch may have before it is applied at once.
pub const BULK_CHANGE_THRESHOLD: usize = 8;

/// How much text several edits may carry before they are applied at once.
pub const BULK_TEXT_BYTES: usize = 32_768;

pub const CLEAR_INDEX_CACHE_COMMAND: &'static str = "zerosyntax.clearIndexCache";

pub const REBUILD_INDEX_CACHE_COMMAND: &'static str = "zerosyntax.rebuildIndexCache";

/// An edit of a document. Without a range it replaces the whole text.
#[derive(Debug)]
pub struct ContentChange {
    pub range: Option<Range>,
    pub text: String,
}

/// The text after the first `n` edits, each of which applies to the text that
/// the one before it made.
pub open spec fn edited(s: Seq<char>, changes: Seq<ContentChange>, enc: PositionEnc) -> Seq<char>
    decreases changes.len(),
{
    if changes.len() == 0 {
        s
    } else {
        let c = changes.last();
        changed(edited(s, changes.drop_last(), enc), c.range, c.text@, enc)
    }
}

/// The bytes of text that the edits carry.
pub open spec fn incoming_bytes(changes: Seq<ContentChange>) -> nat
    decreases changes.len(),
{
    if changes.len() == 0 {
        0
    } else {
        incoming_bytes(changes.drop_last()) + byte_len(changes.last().text@)
    }
}

/// Whether every edit has a range.
pub open spec fn all_ranged(changes: Seq<ContentChange>) -> bool {
    forall|k: int| 0 <= k < changes.len() ==> (#[trigger] changes[k]).range is Some
}

/// Many edits, or several with much text, all of them partial: the text is
/// parsed once, after the last. Else each edit is followed by a parse.
pub open spec fn is_bulk(changes: Seq<ContentChange>) -> bool {
    (changes.len() > BULK_CHANGE_THRESHOLD || (changes.len() > 1 && incoming_bytes(changes)
        > BULK_TEXT_BYTES)) && all_ranged(changes)
}

proof fn lemma_incoming_grows(changes: Seq<ContentChange>, k: int)
    requires
        0 <= k <= changes.len(),
    ensures
        incoming_bytes(changes.take(k)) <= incoming_bytes(changes),
    decreases changes.len(),
{
    if k < changes.len() {
        lemma_incoming_grows(changes.drop_last(), k);
        assert(changes.drop_last().take(k) =~= changes.take(k));
    } else {
        assert(changes.take(k) =~= changes);
    }
}

/// Decides [`is_bulk`].
pub fn bulk_change(changes: &Vec<ContentChange>) -> (r: bool)
    requires
        incoming_bytes(changes@) <= usize::MAX,
    ensures
        r == is_bulk(changes@),
{
    let mut bytes: usize = 0;
    let mut ranged: bool = true;
    let mut i: usize = 0;
    assert(changes@.take(0) =~= Seq::empty());
    while i < changes.len()
        invariant
            i <= changes.len(),
            incoming_bytes(changes@) <= usize::MAX,
            bytes == incoming_bytes(changes@.take(i as int)),
            ranged == forall|k: int| 0 <= k < i ==> (#[trigger] changes@[k]).range is Some,
        decreases changes.len() - i,
    {
        proof {
            assert(changes@.take(i + 1).drop_last() =~= changes@.take(i as int));
            lemma_incoming_grows(changes@, i + 1);
        }
        bytes = bytes + bytes_in(changes[i].text.as_str());
        if changes[i].range.is_none() {
            ranged = false;
        }
        i += 1;
    }
    assert(changes@.take(i as int) =~= changes@);
    let n: usize = changes.len();
    (n > BULK_CHANGE_THRESHOLD || (n > 1 && bytes > BULK_TEXT_BYTES)) && ranged
}

/// Applies a batch of edits, one after another.
pub fn apply_changes(rope: &mut ropey::Rope, changes: &Vec<ContentChange>, enc: PositionEnc)
    ensures
        rope_text(*final(rope)) == edited(rope_text(*old(rope)), changes@, enc),
{
    let ghost start = rope_text(*rope);
    let mut i: usize = 0;
    assert(changes@.take(0) =~= Seq::empty());
    while i < changes.len()
        invariant
            i <= changes.len(),
            rope_text(*rope) == edited(start, changes@.take(i as int), enc),
        decreases changes.len() - i,
    {
        assert(changes@.take(i + 1).drop_last() =~= changes@.take(i as int));
        apply_change(rope, changes[i].range, changes[i].text.as_str(), enc);
        i += 1;
    }
    assert(changes@.take(i as int) =~= changes@);
}

/// Where an edit falls in the bytes of the text before it.
#[derive(Debug, Clone, Copy, PartialEq, Eq, Structural)]
pub struct Edit {
    pub start: u32,
    pub old_end: u32,
    pub new_len: usize,
}

/// Applies one edit. A partial edit gives the bytes that it replaced.
pub fn apply_step(rope: &mut ropey::Rope, change: &ContentChange, enc: PositionEnc) -> (r: Option<
    Edit,
>)
    ensures
        rope_text(*final(rope)) == changed(
            rope_text(*old(rope)),
            change.range,
            change.text@,
            enc,
        ),
        match (r, change.range) {
            (Some(edit), Some(range)) => {
                &&& edit.start == offset_of(rope_text(*old(rope)), range.start, enc)
                &&& edit.old_end == offset_of(rope_text(*old(rope)), range.end, enc)
                &&& edit.new_len == byte_len(change.text@)
            },
            (None, None) => true,
            _ => false,
        },
{
    match change.range {
        Some(range) => {
            let start: u32 = position_to_offset(rope, range.start, enc);
            let old_end: u32 = position_to_offset(rope, range.end, enc);
            apply_change(rope, change.range, change.text.as_str(), enc);
            Some(Edit { start, old_end, new_len: bytes_in(change.text.as_str()) })
        },
        None => {
            apply_change(rope, None, change.text.as_str(), enc);
            None
        },
    }
}

/// One batch, or the same edits in two batches, or one by one: the text is the
/// same.
pub proof fn law_batches_compose(
    s: Seq<char>,
    first: Seq<ContentChange>,
    second: Seq<ContentChange>,
    enc: PositionEnc,
)
    ensures
        edited(s, first + second, enc) == edited(edited(s, first, enc), second, enc),
    decreases second.len(),
{
    if second.len() == 0 {
        assert(first + second =~= first);
    } else {
        law_batches_compose(s, first, second.drop_last(), enc);
        assert((first + second).drop_last() =~= first + second.drop_last());
        assert((first + second).last() == second.last());
    }
}

/// A replacement of the whole text forgets what came before it.
pub proof fn law_replacement_forgets(
    s: Seq<char>,
    t: Seq<char>,
    changes: Seq<ContentChange>,
    enc: PositionEnc,
)
    requires
        changes.len() > 0,
        changes.last().range is None,
    ensures
        edited(s, changes, enc) == changes.last().text@,
        edited(s, changes, enc) == edited(t, changes, enc),
{
}

/// The version that a refresh works on: that of the open document, unless
/// another one is expected.
pub fn refresh_version(current: Option<i32>, expected: Option<i32>) -> (r: Option<i32>)
    ensures
        r == (if expected is Some && current != expected {
            None
        } else {
            current
        }),
{
    match (current, expected) {
        (Some(version), Some(wanted)) => {
            if version == wanted {
                Some(version)
            } else {
                None
            }
        },
        (found, _) => found,
    }
}

/// Whether what was made of `version` may be stored: the document is still
/// open in that version.
pub fn still_current(current: Option<i32>, version: i32) -> (r: bool)
    ensures
        r == (current == Some(version)),
{
    match current {
        Some(now) => now == version,
        None => false,
    }
}

/// The findings without those on the order of a map's definitions, where
/// these are switched off.
pub open spec fn without_ordering(list: Seq<DiagnosticView>, enabled: bool) -> Seq<DiagnosticView>
    decreases list.len(),
{
    if list.len() == 0 {
        Seq::empty()
    } else {
        let rest = without_ordering(list.drop_last(), enabled);
        if !enabled && list.last().code == "map-forward-reference"@ {
            rest
        } else {
            rest.push(list.last())
        }
    }
}

/// Drops the findings on the order of a map's definitions, where these are
/// switched off.
pub fn filter_map_ordering_diagnostics(list: Vec<Diagnostic>, enabled: bool) -> (r: Vec<Diagnostic>)
    ensures
        diags(r@) == without_ordering(diags(list@), enabled),
{
    let ghost whole = diags(list@);
    let mut out: Vec<Diagnostic> = Vec::new();
    assert(whole.take(0) =~= Seq::empty());
    assert(diags(out@) =~= Seq::empty());
    for d in it: list
        invariant
            diags(it.seq()) == whole,
            diags(out@) == without_ordering(whole.take(it.index() as int), enabled),
    {
        let ghost before = diags(out@);
        proof {
            let k = it.index() as int;
            assert(diags(it.seq())[k] == d@);
            assert(whole.take(k + 1).drop_last() =~= whole.take(k));
        }
        let drops: bool = !enabled && same(d.code, "map-forward-reference");
        if !drops {
            let ghost view = d@;
            out.push(d);
            assert(diags(out@) =~= before.push(view));
        }
    }
    assert(whole.take(whole.len() as int) =~= whole);
    out
}

/// Switched off, the rule leaves no trace; switched on, nothing is dropped.
pub proof fn law_ordering_filter(list: Seq<DiagnosticView>)
    ensures
        without_ordering(list, true) == list,
        forall|k: int|
            0 <= k < without_ordering(list, false).len() ==> (#[trigger] without_ordering(
                list,
                false,
            )[k]).code != "map-forward-reference"@,
    decreases list.len(),
{
    if list.len() > 0 {
        law_ordering_filter(list.drop_last());
        assert(list.drop_last().push(list.last()) =~= list);
        let rest = without_ordering(list.drop_last(), false);
        assert forall|k: int| 0 <= k < without_ordering(list, false).len() implies (
        #[trigger] without_ordering(list, false)[k]).code != "map-forward-reference"@ by {
            if k < rest.len() {
                assert(rest[k].code != "map-forward-reference"@);
            }
        }
    } else {
        assert(without_ordering(list, true) =~= list);
    }
}

/// How many findings have a severity.
pub open spec fn severity_count(list: Seq<DiagnosticView>, severity: Severity) -> nat
    decreases list.len(),
{
    if list.len() == 0 {
        0
    } else {
        severity_count(list.drop_last(), severity) + (if list.last().severity == severity {
            1nat
        } else {
            0nat
        })
    }
}

/// A finding as the client is sent it.
pub open spec fn item_matches(
    item: DiagnosticItem,
    text: Seq<char>,
    d: DiagnosticView,
    enc: PositionEnc,
) -> bool {
    &&& item.range == range_of(text, d.span, enc)
    &&& item.severity == d.severity
    &&& item.code@ == d.code
    &&& item.source@ == "zerosyntax"@
    &&& item.message@ == d.message
}

/// What a refresh publishes.
#[derive(Debug)]
pub struct DocumentReport {
    pub items: Vec<DiagnosticItem>,
    pub errors: usize,
    pub warnings: usize,
    pub hints: usize,
}

/// Finds, filters, counts and converts the findings of a document.
pub fn document_report(
    ctx: Ctx<'_>,
    cache: &mut DiagnosticsCache,
    map_ordering: bool,
    rope: &ropey::Rope,
    enc: PositionEnc,
) -> (r: DocumentReport)
    requires
        ctx.parse.wf(),
    ensures
        ({
            let found = without_ordering(
                cached_diags(live_entries(*old(cache), ctx), ctx),
                map_ordering,
            );
            &&& r.items@.len() == found.len()
            &&& forall|k: int|
                0 <= k < found.len() ==> item_matches(
                    #[trigger] r.items@[k],
                    rope_text(*rope),
                    found[k],
                    enc,
                )
            &&& r.errors == severity_count(found, Severity::Error)
            &&& r.warnings == severity_count(found, Severity::Warning)
            &&& r.hints == severity_count(found, Severity::Hint)
        }),
        final(cache).generation == context_generation(ctx),
        entry_views(final(cache).entries@) == next_entries(
            live_entries(*old(cache), ctx),
            ctx,
            0,
        ),
        final(cache).hits == counted(
            old(cache).hits,
            hit_count(live_entries(*old(cache), ctx), ctx.parse, 0),
        ),
        final(cache).misses == counted(
            old(cache).misses,
            (child_count(ctx.parse, 0) - hit_count(
                live_entries(*old(cache), ctx),
                ctx.parse,
                0,
            )) as nat,
        ),
        entries_sound(entry_views(old(cache).entries@), ctx.analyzer, in_override_layer(ctx))
            ==> cached_diags(live_entries(*old(cache), ctx), ctx) == document_diags(ctx)
            && entries_sound(
            entry_views(final(cache).entries@),
            ctx.analyzer,
            in_override_layer(ctx),
        ),
{
    let all = diagnose_with_cache(ctx.analyzer, ctx.parse, ctx.index, ctx.file, cache);
    let list = filter_map_ordering_diagnostics(all, map_ordering);
    let ghost found = diags(list@);
    let mut items: Vec<DiagnosticItem> = Vec::new();
    let mut errors: usize = 0;
    let mut warnings: usize = 0;
    let mut hints: usize = 0;
    let mut i: usize = 0;
    assert(found.take(0) =~= Seq::empty());
    while i < list.len()
        invariant
            i <= list.len(),
            found == diags(list@),
            items@.len() == i,
            errors <= i,
            warnings <= i,
            hints <= i,
            forall|k: int|
                0 <= k < i ==> item_matches(#[trigger] items@[k], rope_text(*rope), found[k], enc),
            errors == severity_count(found.take(i as int), Severity::Error),
            warnings == severity_count(found.take(i as int), Severity::Warning),
            hints == severity_count(found.take(i as int), Severity::Hint),
        decreases list.len() - i,
    {
        assert(found.take(i + 1).drop_last() =~= found.take(i as int));
        assert(found[i as int] == list@[i as int]@);
        match list[i].severity {
            Severity::Error => {
                errors += 1;
            },
            Severity::Warning => {
                warnings += 1;
            },
            Severity::Hint => {
                hints += 1;
            },
        }
        items.push(to_lsp_diagnostic(rope, &list[i], enc));
        i += 1;
    }
    assert(found.take(i as int) =~= found);
    DocumentReport { items, errors, warnings, hints }
}

/// The answer to a request for the change of semantic tokens.
#[derive(Debug)]
pub enum SemanticReply {
    /// All tokens.
    Tokens,
    /// The edit that turns the tokens that the client holds into the new ones.
    Delta(SemanticTokensEdit),
}

/// Answers a request for the change of semantic tokens: with an edit of
/// exactly the result that the client says it holds, else with all tokens.
pub fn semantic_reply(
    previous: Option<(u64, &[SemanticToken])>,
    previous_result_id: &str,
    next: &[SemanticToken],
) -> (r: SemanticReply)
    requires
        previous matches Some((_, tokens)) ==> tokens@.len() * 5 <= u32::MAX,
    ensures
        match r {
            SemanticReply::Delta(edit) => {
                previous matches Some((id, tokens)) && decimal(id as nat)
                    == previous_result_id@ && is_splice(edit, tokens@, next@)
            },
            SemanticReply::Tokens => previous matches Some((id, tokens)) ==> decimal(id as nat)
                != previous_result_id@,
        },
{
    match previous {
        Some((id, tokens)) => {
            let held = crate::numbers::unsigned_text(id as u128);
            if same(held.as_str(), previous_result_id) {
                SemanticReply::Delta(semantic_tokens_splice(tokens, next))
            } else {
                SemanticReply::Tokens
            }
        },
        None => SemanticReply::Tokens,
    }
}

/// The commands of the server.
#[derive(Debug, Clone, Copy, PartialEq, Eq, Structural)]
pub enum Command {
    ClearCache,
    RebuildCache,
}

/// The command of that name.
pub fn command_named(name: &str) -> (r: Option<Command>)
    ensures
        r == (if name@ == CLEAR_INDEX_CACHE_COMMAND@ {
            Some(Command::ClearCache)
        } else if name@ == REBUILD_INDEX_CACHE_COMMAND@ {
            Some(Command::RebuildCache)
        } else {
            None
        }),
{
    if same(name, CLEAR_INDEX_CACHE_COMMAND) {
        Some(Command::ClearCache)
    } else if same(name, REBUILD_INDEX_CACHE_COMMAND) {
        Some(Command::RebuildCache)
    } else {
        None
    }
}

/// What a command does once the cache was cleared or could not be.
#[derive(Debug, Clone, Copy, PartialEq, Eq)]
pub enum CommandStep {
    /// Fail, and close the progress with `progress`, where any is shown.
    Fail { progress: Option<&'static str>, log: &'static str },
    /// Scan again.
    Rebuild,
    /// Answer, and say `message`.
    Answer { message: &'static str },
}

/// Goes on after an attempt to clear the cache. `cleared` says whether there
/// was something to clear, or is `None` where clearing failed.
pub fn after_clear(command: Command, cleared: Option<bool>) -> (r: CommandStep)
    ensures
        match r {
            CommandStep::Fail { progress, log } => {
                &&& cleared is None
                &&& log@ == "ZeroSyntax: failed to clear the index cache."@
                &&& progress is Some <==> command == Command::RebuildCache
                &&& progress matches Some(p) ==> p@
                    == "Index rebuild failed — the cache could not be cleared"@
            },
            CommandStep::Rebuild => cleared is Some && command == Command::RebuildCache,
            CommandStep::Answer { message } => {
                &&& command == Command::ClearCache
                &&& cleared matches Some(had) && message@ == (if had {
                    "ZeroSyntax index cache cleared. Restart the language server to rebuild it."@
                } else {
                    "ZeroSyntax index cache is already clear."@
                })
            },
        },
{
    match cleared {
        None => CommandStep::Fail {
            progress: match command {
                Command::RebuildCache => Some(
                    "Index rebuild failed — the cache could not be cleared",
                ),
                Command::ClearCache => None,
            },
            log: "ZeroSyntax: failed to clear the index cache.",
        },
        Some(had) => match command {
            Command::RebuildCache => CommandStep::Rebuild,
            Command::ClearCache => CommandStep::Answer {
                message: if had {
                    "ZeroSyntax index cache cleared. Restart the language server to rebuild it."
                } else {
                    "ZeroSyntax index cache is already clear."
                },
            },
        },
    }
}

/// What the server knows of its last scan.
#[derive(Debug, Clone, Copy, PartialEq, Eq, Structural)]
pub struct ScanState {
    pub finished: bool,
    /// How many INI files of the game data it brought.
    pub base_indexed: usize,
}

impl ScanState {
    /// The state after a rebuild that began in this state: what the scan
    /// brought, or, where it failed, the state before.
    pub fn after_rebuild(self, scanned: Option<usize>) -> (r: ScanState)
        ensures
            r == (match scanned {
                Some(base_indexed) => ScanState { finished: true, base_indexed },
                None => self,
            }),
    {
        match scanned {
            Some(base_indexed) => ScanState { finished: true, base_indexed },
            None => self,
        }
    }
}

/// What to tell a user who edits a map without any game data.
#[derive(Debug, Clone, Copy, PartialEq, Eq, Structural)]
pub enum BaseDataHint {
    Nothing,
    /// Log it; the client shows a hint of its own.
    Log,
    /// Log it and show it.
    LogAndShow,
}

/// Decides on the hint: it comes once, for a map, after a scan that brought
/// no game data.
pub fn base_data_hint(
    file: &str,
    scan: ScanState,
    roots_empty: bool,
    client_hints: bool,
    shown: bool,
) -> (r: BaseDataHint)
    ensures
        r == (if !override_layer(file@) || !scan.finished || scan.base_indexed > 0 || shown {
            BaseDataHint::Nothing
        } else if roots_empty && client_hints {
            BaseDataHint::Log
        } else {
            BaseDataHint::LogAndShow
        }),
{
    if !is_override_layer(file) || !scan.finished || scan.base_indexed > 0 || shown {
        BaseDataHint::Nothing
    } else if roots_empty && client_hints {
        BaseDataHint::Log
    } else {
        BaseDataHint::LogAndShow
    }
}

/// The roots of a workspace: the folders that are directories on disk, or,
/// where the client names no folders, its single root.
pub open spec fn roots_of(
    folders: Option<Seq<Option<Seq<char>>>>,
    root: Option<Seq<char>>,
) -> Seq<Seq<char>> {
    match folders {
        Some(list) => local_roots(list),
        None => match root {
            Some(path) => seq![path],
            None => Seq::empty(),
        },
    }
}

pub open spec fn local_roots(list: Seq<Option<Seq<char>>>) -> Seq<Seq<char>>
    decreases list.len(),
{
    if list.len() == 0 {
        Seq::empty()
    } else {
        match list.last() {
            Some(path) => local_roots(list.drop_last()).push(path),
            None => local_roots(list.drop_last()),
        }
    }
}

pub open spec fn folder_views(list: Seq<Option<String>>) -> Seq<Option<Seq<char>>> {
    list.map_values(|f: Option<String>| crate::index::opt_text(f))
}

/// Collects the roots of a workspace. A folder that is no path on disk is
/// `None`.
pub fn workspace_roots(folders: Option<Vec<Option<String>>>, root: Option<String>) -> (r: Vec<
    String,
>)
    ensures
        texts(r@) == roots_of(
            (match folders {
                Some(list) => Some(folder_views(list@)),
                None => None,
            }),
            crate::index::opt_text(root),
        ),
{
    let mut out: Vec<String> = Vec::new();
    assert(texts(out@) =~= Seq::empty());
    match folders {
        Some(list) => {
            let ghost whole = folder_views(list@);
            assert(whole.take(0) =~= Seq::empty());
            for folder in it: list
                invariant
                    folder_views(it.seq()) == whole,
                    texts(out@) == local_roots(whole.take(it.index() as int)),
            {
                let ghost before = texts(out@);
                proof {
                    let k = it.index() as int;
                    assert(folder_views(it.seq())[k] == crate::index::opt_text(folder));
                    assert(whole.take(k + 1).drop_last() =~= whole.take(k));
                }
                if let Some(path) = folder {
                    let ghost view = path@;
                    out.push(path);
                    assert(texts(out@) =~= before.push(view));
                }
            }
            assert(whole.take(whole.len() as int) =~= whole);
        },
        None => {
            if let Some(path) = root {
                let ghost view = path@;
                out.push(path);
                assert(texts(out@) =~= seq![view]);
            }
        },
    }
    out
}

/// Whether formatting is announced at start: only where the user asked for it
/// and the client cannot be told later.
pub fn announces_formatting(dynamic_registration: bool, format_enabled: bool) -> (r: bool)
    ensures
        r == (!dynamic_registration && format_enabled),
{
    !dynamic_registration && format_enabled
}

/// `n` blanks.
pub open spec fn blanks(n: nat) -> Seq<char> {
    Seq::new(n, |i: int| ' ')
}

/// The text of one level of indentation.
pub fn indent_unit(insert_spaces: bool, tab_size: u32) -> (r: String)
    ensures
        r@ == (if insert_spaces {
            blanks(tab_size as nat)
        } else {
            "\t"@
        }),
{
    if !insert_spaces {
        return "\t".to_string();
    }
    let mut out = String::new();
    let mut i: u32 = 0;
    assert(out@ =~= blanks(0));
    while i < tab_size
        invariant
            i <= tab_size,
            out@ == blanks(i as nat),
        decreases tab_size - i,
    {
        push_char(&mut out, ' ');
        i += 1;
        assert(out@ =~= blanks(i as nat));
    }
    out
}

/// The hover text of a block.
pub fn block_hover(name: &str, doc: Option<&str>) -> (r: String)
    ensures
        r@ == "**block** `"@ + name@ + "`\n\n"@ + (match doc {
            Some(text) => text@,
            None => "Top-level block `"@ + name@ + "`."@,
        }),
{
    let body = match doc {
        Some(text) => text.to_string(),
        None => join3("Top-level block `", name, "`."),
    };
    let mut out = join3("**block** `", name, "`\n\n");
    out.append(body.as_str());
    out
}

/// The hover text of a field. `ty` is the printed type.
pub fn field_hover(name: &str, ty: &str, parse_fn: &str) -> (r: String)
    ensures
        r@ == "**field** `"@ + name@ + "`\n\ntype: `"@ + ty@ + "`\n\nengine: `"@ + parse_fn@
            + "`"@,
{
    let mut out = join5("**field** `", name, "`\n\ntype: `", ty, "`\n\nengine: `");
    out.append(parse_fn);
    out.append("`");
    out
}

/// The warning that goes with a schema that could not be loaded.
pub fn schema_warning(error: &str) -> (r: String)
    ensures
        r@ == "ZeroSyntax: "@ + error@ + "; using the built-in schema."@,
{
    join3("ZeroSyntax: ", error, "; using the built-in schema.")
}

} // verus!
