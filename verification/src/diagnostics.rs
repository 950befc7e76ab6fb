//! All diagnostics of a document: syntax errors, the schema checks of every
//! top-level block, the map checks, and the suppression pragma.

use vstd::prelude::*;

use crate::analyzer::Analyzer;
use crate::index::WorkspaceIndex;
use crate::maplayer::{listed, map_layer_diagnostics, map_layer_diags};
use crate::objects::{diagnose_root_child, root_child_diags};
use crate::scopes::in_override_layer;
use crate::shift::{is_shape_of, shape_of, shape_tree, tree_of, Shape, TreeView};
use crate::steady::{
    absolute_parts, assemble, assembled, copy_parts, law_parts_give_the_findings,
    law_parts_round_trip, lower_parts, parts_of, raise_parts, relative_parts, steady_parts, Parts,
    PartsView,
};
use crate::syntax::{Element, Parse, Span, SyntaxError, SyntaxToken, TokenKind};
use crate::text::{
    byte_len, bytes_in, chars_of, join3, lemma_byte_len_add, slices, strip_prefix, trim_start,
    trim_start_of, without_prefix, CharClass,
};
use crate::twin::law_parts_move_with_the_block;
use crate::values::{
    diags, error, error_at, hint_at, nothing, report, Ctx, Diagnostic, DiagnosticView, Severity,
};

verus! {

/// Every stable diagnostic code. The suppression pragma accepts no other.
pub open spec fn known_codes() -> Seq<Seq<char>> {
    seq![
        "syntax"@,
        "stray-field"@,
        "unknown-block"@,
        "overrides"@,
        "duplicate-definition"@,
        "map-forward-reference"@,
        "map-projectile-object"@,
        "unreachable-set"@,
        "unknown-field"@,
        "missing-module-tag"@,
        "unknown-module"@,
        "unknown-module-tag"@,
        "missing-condition"@,
        "missing-value"@,
        "bad-bool"@,
        "non-positive"@,
        "bad-percent"@,
        "bad-color"@,
        "bad-coord"@,
        "bad-number"@,
        "bad-enum"@,
        "bad-flag"@,
        "bad-prefixed"@,
        "unresolved-reference"@,
        "unknown-model"@,
        "unknown-model-member"@,
        "unknown-audio-file"@,
        "unknown-texture"@,
        "unknown-suppression"@,
        "module-wrong-slot"@,
        "duplicate-module-tag"@,
        "editor-default-module"@,
        "default-modules-not-removed"@,
    ]
}

/// Whether a word is a diagnostic code.
pub fn is_known_code(word: &str) -> (r: bool)
    ensures
        r == known_codes().contains(word@),
{
    let list: [&'static str; 33] = [
        "syntax",
        "stray-field",
        "unknown-block",
        "overrides",
        "duplicate-definition",
        "map-forward-reference",
        "map-projectile-object",
        "unreachable-set",
        "unknown-field",
        "missing-module-tag",
        "unknown-module",
        "unknown-module-tag",
        "missing-condition",
        "missing-value",
        "bad-bool",
        "non-positive",
        "bad-percent",
        "bad-color",
        "bad-coord",
        "bad-number",
        "bad-enum",
        "bad-flag",
        "bad-prefixed",
        "unresolved-reference",
        "unknown-model",
        "unknown-model-member",
        "unknown-audio-file",
        "unknown-texture",
        "unknown-suppression",
        "module-wrong-slot",
        "duplicate-module-tag",
        "editor-default-module",
        "default-modules-not-removed",
    ];
    assert(slices(list@) =~= known_codes());
    listed(list.as_slice(), word)
}

/// A comment without its leading semicolons.
pub open spec fn no_semicolons(s: Seq<char>) -> Seq<char>
    decreases s.len(),
{
    if s.len() > 0 && s[0] == ';' {
        no_semicolons(s.skip(1))
    } else {
        s
    }
}

fn without_semicolons(text: &str) -> (r: &str)
    ensures
        r@ == no_semicolons(text@),
{
    let chars = chars_of(text);
    let mut i: usize = 0;
    assert(text@.skip(0) =~= text@);
    while i < chars.len() && chars[i] == ';'
        invariant
            i <= chars.len(),
            chars@ == text@,
            no_semicolons(text@) == no_semicolons(text@.skip(i as int)),
        decreases chars.len() - i,
    {
        assert(text@.skip(i as int).skip(1) =~= text@.skip(i + 1));
        i += 1;
    }
    assert(text@.skip(i as int) =~= text@.subrange(i as int, text@.len() as int));
    vstd::string::StrSliceExecFns::substring_char(text, i, chars.len())
}

/// The part of a pragma comment after its keyword and colon.
pub open spec fn pragma_list(text: Seq<char>) -> Option<Seq<char>> {
    match strip_prefix(
        trim_start(no_semicolons(text), CharClass::Space),
        "zerosyntax-disable"@,
    ) {
        Some(rest) => {
            let rest = trim_start(rest, CharClass::Space);
            match strip_prefix(rest, ":"@) {
                Some(list) => Some(list),
                None => Some(rest),
            }
        },
        None => None,
    }
}

/// Whether `part` ends `s`.
pub open spec fn ends(part: Seq<char>, s: Seq<char>) -> bool {
    part.len() <= s.len() && part == s.skip(s.len() - part.len())
}

proof fn lemma_ends_trans(a: Seq<char>, b: Seq<char>, c: Seq<char>)
    requires
        ends(a, b),
        ends(b, c),
    ensures
        ends(a, c),
{
    assert(a =~= c.skip(c.len() - a.len()));
}

proof fn lemma_semicolons_end(s: Seq<char>)
    ensures
        ends(no_semicolons(s), s),
    decreases s.len(),
{
    if s.len() > 0 && s[0] == ';' {
        lemma_semicolons_end(s.skip(1));
        assert(ends(s.skip(1), s));
        lemma_ends_trans(no_semicolons(s), s.skip(1), s);
    } else {
        assert(s =~= s.skip(0));
    }
}

proof fn lemma_trim_start_end(s: Seq<char>, class: CharClass)
    ensures
        ends(trim_start(s, class), s),
    decreases s.len(),
{
    if s.len() > 0 && crate::text::in_class(s[0], class) {
        lemma_trim_start_end(s.drop_first(), class);
        assert(s.drop_first() =~= s.skip(1));
        lemma_ends_trans(trim_start(s, class), s.drop_first(), s);
    } else {
        assert(s =~= s.skip(0));
    }
}

/// The code list of a pragma ends the comment.
pub proof fn lemma_pragma_list_ends(text: Seq<char>)
    ensures
        match pragma_list(text) {
            Some(list) => ends(list, text) && byte_len(list) <= byte_len(text),
            None => true,
        },
{
    if let Some(list) = pragma_list(text) {
        let a = no_semicolons(text);
        let b = trim_start(a, CharClass::Space);
        lemma_semicolons_end(text);
        lemma_trim_start_end(a, CharClass::Space);
        lemma_ends_trans(b, a, text);
        let c = strip_prefix(b, "zerosyntax-disable"@)->Some_0;
        assert(ends(c, b));
        lemma_ends_trans(c, b, text);
        let d = trim_start(c, CharClass::Space);
        lemma_trim_start_end(c, CharClass::Space);
        lemma_ends_trans(d, c, text);
        if strip_prefix(d, ":"@) is Some {
            assert(ends(list, d));
            lemma_ends_trans(list, d, text);
        }
        let cut = text.len() - list.len();
        assert(text =~= text.take(cut) + list);
        lemma_byte_len_add(text.take(cut), list);
    }
}

/// Where the code list of a pragma starts in the document.
pub open spec fn pragma_base(tok: SyntaxToken, list: Seq<char>) -> int {
    tok.span.start + byte_len(tok.text@) - byte_len(list)
}

/// If `tok` is a pragma comment, where its code list starts, and the list.
pub fn pragma_rest(tok: &SyntaxToken) -> (r: Option<(u32, &str)>)
    requires
        tok.wf(),
    ensures
        match r {
            Some((base, list)) => tok.kind is Comment && pragma_list(tok.text@) == Some(list@)
                && base == pragma_base(*tok, list@),
            None => !(tok.kind is Comment) || pragma_list(tok.text@) is None,
        },
{
    if tok.kind != TokenKind::Comment {
        return None;
    }
    let text = tok.text.as_str();
    let body = trim_start_of(without_semicolons(text), CharClass::Space);
    match without_prefix(body, "zerosyntax-disable") {
        Some(rest) => {
            let rest = trim_start_of(rest, CharClass::Space);
            let list = match without_prefix(rest, ":") {
                Some(list) => list,
                None => rest,
            };
            proof {
                lemma_pragma_list_ends(tok.text@);
            }
            let skip: usize = bytes_in(text) - bytes_in(list);
            Some((tok.span.start + (skip as u32), list))
        },
        None => None,
    }
}

/// What separates the codes of a pragma.
pub open spec fn separator(c: char) -> bool {
    c == ' ' || c == '\t' || c == ',' || c == '\r'
}

fn is_separator(c: char) -> (r: bool)
    ensures
        r == separator(c),
{
    c == ' ' || c == '\t' || c == ',' || c == '\r'
}

/// The position of the first scalar from `i` on that is (or is not) a
/// separator.
pub open spec fn run_of(s: Seq<char>, i: int, separators: bool) -> int
    decreases s.len() - i,
{
    if 0 <= i < s.len() && separator(s[i]) == separators {
        run_of(s, i + 1, separators)
    } else {
        i
    }
}

pub proof fn lemma_run_of(s: Seq<char>, i: int, separators: bool)
    requires
        0 <= i <= s.len(),
    ensures
        i <= run_of(s, i, separators) <= s.len(),
        run_of(s, i, separators) < s.len() ==> separator(s[run_of(s, i, separators)])
            != separators,
    decreases s.len() - i,
{
    if i < s.len() && separator(s[i]) == separators {
        lemma_run_of(s, i + 1, separators);
    }
}

/// The words of a code list from `i` on, as ranges of its scalars.
pub open spec fn words_from(s: Seq<char>, i: int) -> Seq<(int, int)>
    decreases s.len() - i,
{
    let start = run_of(s, i, true);
    let end = run_of(s, start, false);
    if i < 0 || start >= s.len() || end <= i || end > s.len() {
        Seq::empty()
    } else {
        seq![(start, end)] + words_from(s, end)
    }
}

fn end_of_run(chars: &Vec<char>, from: usize, separators: bool) -> (r: usize)
    requires
        from <= chars.len(),
    ensures
        r == run_of(chars@, from as int, separators),
        from <= r <= chars.len(),
{
    let mut i: usize = from;
    while i < chars.len() && is_separator(chars[i]) == separators
        invariant
            from <= i <= chars.len(),
            run_of(chars@, from as int, separators) == run_of(chars@, i as int, separators),
        decreases chars.len() - i,
    {
        i += 1;
    }
    i
}

/// The ranges of scalars in a word list.
pub open spec fn ranges(list: Seq<(usize, usize)>) -> Seq<(int, int)> {
    list.map_values(|p: (usize, usize)| (p.0 as int, p.1 as int))
}

/// The words of a code list as ranges of scalars.
fn word_ranges(list: &str) -> (r: Vec<(usize, usize)>)
    ensures
        ranges(r@) == words_from(list@, 0),
        forall|k: int| 0 <= k < r@.len() ==> (#[trigger] r@[k]).0 < r@[k].1 <= list@.len(),
{
    let chars = chars_of(list);
    let ghost whole = words_from(list@, 0);
    let mut out: Vec<(usize, usize)> = Vec::new();
    assert(ranges(out@) + whole =~= whole);
    let mut i: usize = 0;
    while i < chars.len()
        invariant
            i <= chars.len(),
            chars@ == list@,
            whole == words_from(list@, 0),
            ranges(out@) + words_from(list@, i as int) == whole,
            forall|k: int| 0 <= k < out@.len() ==> (#[trigger] out@[k]).0 < out@[k].1
                <= list@.len(),
        decreases chars.len() - i,
    {
        let ghost o0 = ranges(out@);
        let start: usize = end_of_run(&chars, i, true);
        proof {
            lemma_run_of(list@, i as int, true);
        }
        if start >= chars.len() {
            assert(ranges(out@) =~= whole);
            return out;
        }
        let end: usize = end_of_run(&chars, start, false);
        proof {
            lemma_run_of(list@, start as int, false);
        }
        out.push((start, end));
        assert(ranges(out@) =~= o0.push((start as int, end as int)));
        assert(ranges(out@) + words_from(list@, end as int) =~= o0 + words_from(
            list@,
            i as int,
        ));
        i = end;
    }
    assert(words_from(list@, i as int) =~= Seq::<(int, int)>::empty());
    assert(ranges(out@) =~= whole);
    out
}

/// A range of scalars of a text as a range of its bytes.
pub open spec fn byte_range(s: Seq<char>, range: (int, int)) -> (int, int) {
    (byte_len(s.subrange(0, range.0)) as int, byte_len(s.subrange(0, range.1)) as int)
}

/// The words of a code list: runs between spaces, tabs, commas and carriage
/// returns, as ranges of bytes.
pub fn pragma_words(rest: &str) -> (r: Vec<(usize, usize)>)
    ensures
        ranges(r@) == words_from(rest@, 0).map_values(|p: (int, int)| byte_range(rest@, p)),
{
    let words = word_ranges(rest);
    let ghost spans = words_from(rest@, 0);
    let mut out: Vec<(usize, usize)> = Vec::new();
    let mut k: usize = 0;
    while k < words.len()
        invariant
            k <= words.len(),
            spans == ranges(words@),
            out@.len() == k,
            forall|j: int| 0 <= j < words@.len() ==> (#[trigger] words@[j]).0 < words@[j].1
                <= rest@.len(),
            forall|j: int|
                0 <= j < k ==> (ranges(out@)[j]) == byte_range(rest@, #[trigger] spans[j]),
        decreases words.len() - k,
    {
        let (start, end) = words[k];
        assert(words@[k as int].0 < words@[k as int].1 <= rest@.len());
        let head = vstd::string::StrSliceExecFns::substring_char(rest, 0, start);
        let full = vstd::string::StrSliceExecFns::substring_char(rest, 0, end);
        let ghost before = ranges(out@);
        out.push((bytes_in(head), bytes_in(full)));
        assert(ranges(out@).take(k as int) =~= before);
        assert forall|j: int| 0 <= j < k + 1 implies (ranges(out@)[j]) == byte_range(
            rest@,
            #[trigger] spans[j],
        ) by {
            if j < k {
                assert(ranges(out@)[j] == before[j]);
            }
        }
        k += 1;
    }
    assert(ranges(out@) =~= spans.map_values(|p: (int, int)| byte_range(rest@, p)));
    out
}

/// What a pragma suppresses, and its hints about unknown codes.
pub struct Suppression {
    pub codes: Seq<Seq<char>>,
    pub hints: Seq<DiagnosticView>,
}

pub open spec fn no_suppression() -> Suppression {
    Suppression { codes: Seq::empty(), hints: Seq::empty() }
}

/// The words from `w` on of a code list that starts at `base`.
pub open spec fn word_effects(
    list: Seq<char>,
    words: Seq<(int, int)>,
    base: int,
    w: int,
) -> Suppression
    decreases words.len() - w,
{
    if w < 0 || w >= words.len() {
        no_suppression()
    } else {
        let rest = word_effects(list, words, base, w + 1);
        let (start, end) = words[w];
        let word = list.subrange(start, end);
        if known_codes().contains(word) {
            Suppression { codes: seq![word] + rest.codes, hints: rest.hints }
        } else {
            Suppression {
                codes: rest.codes,
                hints: hint_at(
                    Span {
                        start: (base + byte_len(list.subrange(0, start))) as u32,
                        end: (base + byte_len(list.subrange(0, end))) as u32,
                    },
                    "unknown-suppression"@,
                    "`"@ + word + "` is not a known diagnostic code"@,
                ) + rest.hints,
            }
        }
    }
}

/// What one file-scope token suppresses.
pub open spec fn token_effects(tok: SyntaxToken) -> Suppression {
    if tok.kind is Comment {
        match pragma_list(tok.text@) {
            Some(list) => word_effects(list, words_from(list, 0), pragma_base(tok, list), 0),
            None => no_suppression(),
        }
    } else {
        no_suppression()
    }
}

/// What the file-scope tokens from element `k` on suppress. Comments inside
/// blocks are not read: the pragma is a whole-file switch.
pub open spec fn suppressions_from(parse: &Parse, k: int) -> Suppression
    decreases parse.nodes@[0].elements@.len() - k,
{
    if k < 0 || k >= parse.nodes@[0].elements@.len() {
        no_suppression()
    } else {
        let rest = suppressions_from(parse, k + 1);
        match parse.nodes@[0].elements@[k] {
            Element::Token(tok) => {
                let here = token_effects(tok);
                Suppression { codes: here.codes + rest.codes, hints: here.hints + rest.hints }
            },
            Element::Node(_) => rest,
        }
    }
}

fn read_pragma(
    tok: &SyntaxToken,
    codes: &mut Vec<String>,
    hints: &mut Vec<Diagnostic>,
)
    requires
        tok.wf(),
    ensures
        crate::text::texts(final(codes)@) == crate::text::texts(old(codes)@) + token_effects(
            *tok,
        ).codes,
        diags(final(hints)@) == diags(old(hints)@) + token_effects(*tok).hints,
{
    let ghost c0 = crate::text::texts(codes@);
    let ghost h0 = diags(hints@);
    if let Some((base, list)) = pragma_rest(tok) {
        proof {
            lemma_pragma_list_ends(tok.text@);
        }
        let words = word_ranges(list);
        let bytes = pragma_words(list);
        let ghost spans = ranges(words@);
        assert(ranges(bytes@).len() == spans.len());
        let ghost whole = word_effects(list@, spans, base as int, 0);
        let mut w: usize = 0;
        while w < words.len()
            invariant
                w <= words.len(),
                spans == ranges(words@),
                ranges(bytes@) == spans.map_values(|p: (int, int)| byte_range(list@, p)),
                base + byte_len(list@) <= u32::MAX,
                forall|k: int| 0 <= k < words@.len() ==> (#[trigger] words@[k]).0 < words@[k].1
                    <= list@.len(),
                crate::text::texts(codes@) + word_effects(
                    list@,
                    spans,
                    base as int,
                    w as int,
                ).codes == c0 + whole.codes,
                diags(hints@) + word_effects(list@, spans, base as int, w as int).hints == h0
                    + whole.hints,
            decreases words.len() - w,
        {
            let ghost c1 = crate::text::texts(codes@);
            let ghost h1 = diags(hints@);
            let (start, end) = words[w];
            assert(words@[w as int].0 < words@[w as int].1 <= list@.len());
            assert(spans[w as int] == (start as int, end as int));
            let word = vstd::string::StrSliceExecFns::substring_char(list, start, end);
            if is_known_code(word) {
                codes.push(word.to_owned());
                assert(crate::text::texts(codes@) =~= c1.push(word@));
            } else {
                proof {
                    let head = list@.subrange(0, start as int);
                    let full = list@.subrange(0, end as int);
                    assert(list@ =~= head + list@.skip(start as int));
                    lemma_byte_len_add(head, list@.skip(start as int));
                    assert(list@ =~= full + list@.skip(end as int));
                    lemma_byte_len_add(full, list@.skip(end as int));
                    assert(ranges(bytes@).len() == spans.len());
                    assert(ranges(bytes@)[w as int] == byte_range(list@, spans[w as int]));
                }
                let (from, to) = bytes[w];
                report(
                    hints,
                    Span { start: base + (from as u32), end: base + (to as u32) },
                    Severity::Hint,
                    "unknown-suppression",
                    join3("`", word, "` is not a known diagnostic code"),
                );
            }
            assert(crate::text::texts(codes@) + word_effects(
                list@,
                spans,
                base as int,
                w + 1,
            ).codes =~= c1 + word_effects(list@, spans, base as int, w as int).codes);
            assert(diags(hints@) + word_effects(list@, spans, base as int, w + 1).hints =~= h1
                + word_effects(list@, spans, base as int, w as int).hints);
            w += 1;
        }
        assert(crate::text::texts(codes@) =~= c0 + whole.codes);
        assert(diags(hints@) =~= h0 + whole.hints);
    } else {
        assert(crate::text::texts(codes@) =~= c0 + token_effects(*tok).codes);
        assert(diags(hints@) =~= h0 + token_effects(*tok).hints);
    }
}

/// The diagnostics whose code is not suppressed.
pub open spec fn kept(list: Seq<DiagnosticView>, codes: Seq<Seq<char>>) -> Seq<DiagnosticView>
    decreases list.len(),
{
    if list.len() == 0 {
        list
    } else {
        let rest = kept(list.drop_last(), codes);
        if codes.contains(list.last().code) {
            rest
        } else {
            rest.push(list.last())
        }
    }
}

impl Diagnostic {
    pub fn copy(&self) -> (r: Diagnostic)
        ensures
            r@ == self@,
    {
        Diagnostic {
            span: self.span,
            severity: self.severity,
            code: self.code,
            message: self.message.clone(),
        }
    }
}

/// Honor the file-scope suppression pragmas: comments outside any block of
/// the form `; zerosyntax-disable: code, code` drop every diagnostic of a
/// listed code. Unknown codes give a hint at the word.
pub fn apply_suppressions(parse: &Parse, out: Vec<Diagnostic>) -> (r: Vec<Diagnostic>)
    requires
        parse.wf(),
    ensures
        diags(r@) == kept(
            diags(out@) + suppressions_from(parse, 0).hints,
            suppressions_from(parse, 0).codes,
        ),
{
    let mut codes: Vec<String> = Vec::new();
    let mut all = out;
    let ghost d0 = diags(all@);
    let ghost whole = suppressions_from(parse, 0);
    assert(crate::text::texts(codes@) + whole.codes =~= whole.codes);
    let mut k: usize = 0;
    while k < parse.nodes[0].elements.len()
        invariant
            parse.wf(),
            k <= parse.nodes@[0].elements.len(),
            crate::text::texts(codes@) + suppressions_from(parse, k as int).codes == whole.codes,
            diags(all@) + suppressions_from(parse, k as int).hints == d0 + whole.hints,
        decreases parse.nodes@[0].elements.len() - k,
    {
        let ghost c1 = crate::text::texts(codes@);
        let ghost h1 = diags(all@);
        if let Element::Token(tok) = &parse.nodes[0].elements[k] {
            read_pragma(tok, &mut codes, &mut all);
        }
        assert(crate::text::texts(codes@) + suppressions_from(parse, k + 1).codes =~= c1
            + suppressions_from(parse, k as int).codes);
        assert(diags(all@) + suppressions_from(parse, k + 1).hints =~= h1 + suppressions_from(
            parse,
            k as int,
        ).hints);
        k += 1;
    }
    assert(crate::text::texts(codes@) =~= whole.codes);
    assert(diags(all@) =~= d0 + whole.hints);
    let mut result: Vec<Diagnostic> = Vec::new();
    let ghost list = diags(all@);
    let mut i: usize = 0;
    while i < all.len()
        invariant
            i <= all.len(),
            list == diags(all@),
            crate::text::texts(codes@) == whole.codes,
            diags(result@) == kept(list.take(i as int), whole.codes),
        decreases all.len() - i,
    {
        let ghost r0 = diags(result@);
        assert(list.take(i + 1).drop_last() =~= list.take(i as int));
        if !crate::model::contains_text(&codes, all[i].code) {
            result.push(all[i].copy());
            assert(diags(result@) =~= r0.push(list[i as int]));
        }
        i += 1;
    }
    assert(list.take(i as int) =~= list);
    result
}

/// Syntax errors from `i` on.
pub open spec fn syntax_diags(errors: Seq<SyntaxError>, i: int) -> Seq<DiagnosticView>
    decreases errors.len() - i,
{
    if i < 0 || i >= errors.len() {
        nothing()
    } else {
        error_at(
            Span { start: errors[i].start, end: errors[i].end },
            "syntax"@,
            errors[i].message@,
        ) + syntax_diags(errors, i + 1)
    }
}

/// Structural errors from the parser (unterminated blocks, stray `End`).
pub fn parser_errors(parse: &Parse) -> (r: Vec<Diagnostic>)
    ensures
        diags(r@) == syntax_diags(parse.errors@, 0),
{
    let mut out: Vec<Diagnostic> = Vec::new();
    let ghost whole = syntax_diags(parse.errors@, 0);
    assert(diags(out@) + whole =~= whole);
    let mut i: usize = 0;
    while i < parse.errors.len()
        invariant
            i <= parse.errors.len(),
            diags(out@) + syntax_diags(parse.errors@, i as int) == whole,
        decreases parse.errors.len() - i,
    {
        let ghost d0 = diags(out@);
        let e = &parse.errors[i];
        error(&mut out, Span { start: e.start, end: e.end }, "syntax", e.message.clone());
        assert(diags(out@) + syntax_diags(parse.errors@, i + 1) =~= d0 + syntax_diags(
            parse.errors@,
            i as int,
        ));
        i += 1;
    }
    assert(diags(out@) =~= whole);
    out
}

/// The schema diagnostics of the root's children from element `k` on.
pub open spec fn children_diags(ctx: Ctx<'_>, k: int) -> Seq<DiagnosticView>
    decreases ctx.parse.nodes@[0].elements@.len() - k,
{
    if k < 0 || k >= ctx.parse.nodes@[0].elements@.len() {
        nothing()
    } else {
        let here = match ctx.parse.nodes@[0].elements@[k] {
            Element::Node(c) => root_child_diags(ctx, c as int),
            Element::Token(_) => nothing(),
        };
        here + children_diags(ctx, k + 1)
    }
}

/// All diagnostics of a document before suppression.
pub open spec fn raw_diags(ctx: Ctx<'_>) -> Seq<DiagnosticView> {
    syntax_diags(ctx.parse.errors@, 0) + children_diags(ctx, 0) + map_layer_diags(ctx)
}

/// All diagnostics of a document.
pub open spec fn document_diags(ctx: Ctx<'_>) -> Seq<DiagnosticView> {
    let suppression = suppressions_from(ctx.parse, 0);
    kept(raw_diags(ctx) + suppression.hints, suppression.codes)
}

/// Run all diagnostics over a document. The index enables cross-file checks;
/// with the file name too, redefinitions of names defined elsewhere are
/// recognized.
pub fn diagnose(
    analyzer: &Analyzer,
    parse: &Parse,
    index: Option<&WorkspaceIndex>,
    file: Option<&str>,
) -> (r: Vec<Diagnostic>)
    requires
        parse.wf(),
    ensures
        diags(r@) == document_diags((Ctx { analyzer, parse, index, file })),
{
    let ctx = Ctx { analyzer, parse, index, file };
    let mut out = parser_errors(ctx.parse);
    let ghost d0 = diags(out@);
    let mut k: usize = 0;
    while k < ctx.parse.nodes[0].elements.len()
        invariant
            ctx.parse.wf(),
            k <= ctx.parse.nodes@[0].elements.len(),
            diags(out@) + children_diags(ctx, k as int) == d0 + children_diags(ctx, 0),
        decreases ctx.parse.nodes@[0].elements.len() - k,
    {
        let ghost d1 = diags(out@);
        if let Element::Node(c) = &ctx.parse.nodes[0].elements[k] {
            let mut found = diagnose_root_child(ctx, *c);
            let ghost more = diags(found@);
            out.append(&mut found);
            assert(diags(out@) =~= d1 + more);
        }
        assert(diags(out@) + children_diags(ctx, k + 1) =~= d1 + children_diags(ctx, k as int));
        k += 1;
    }
    map_layer_diagnostics(ctx, &mut out);
    assert(diags(out@) =~= raw_diags(ctx));
    apply_suppressions(ctx.parse, out)
}

/// The fixed parts of one subtree, relative to its start.
pub struct CacheEntry {
    pub shape: Shape,
    pub parts: Parts,
}

pub struct CacheEntryView {
    pub tree: TreeView,
    pub parts: PartsView,
}

impl View for CacheEntry {
    type V = CacheEntryView;

    open spec fn view(&self) -> CacheEntryView {
        CacheEntryView { tree: shape_tree(self.shape), parts: self.parts@ }
    }
}

pub open spec fn entry_views(entries: Seq<CacheEntry>) -> Seq<CacheEntryView> {
    entries.map_values(|e: CacheEntry| e@)
}

/// A per-document cache of block-level diagnostics, keyed by the block's
/// subtree. It holds what the subtree fixes; what the index or the block's
/// position decides is found anew at every run. It is emptied whenever the
/// index generation changes.
pub struct DiagnosticsCache {
    pub generation: Option<u64>,
    pub entries: Vec<CacheEntry>,
    pub hits: u64,
    pub misses: u64,
}

/// What the entries hold for a subtree. Of several, the last one counts.
pub open spec fn held(entries: Seq<CacheEntryView>, tree: TreeView) -> Option<PartsView>
    decreases entries.len(),
{
    if entries.len() == 0 {
        None
    } else if entries.last().tree == tree {
        Some(entries.last().parts)
    } else {
        held(entries.drop_last(), tree)
    }
}

/// The subtree of a child of the root, relative to its start.
pub open spec fn child_tree(parse: &Parse, c: int) -> TreeView {
    tree_of(parse, c, parse.nodes@[c].span.start)
}

/// The fixed parts of a child of the root, relative to its start: those that
/// the entries hold, or else its own.
pub open spec fn looked_up(entries: Seq<CacheEntryView>, ctx: Ctx<'_>, c: int) -> PartsView {
    match held(entries, child_tree(ctx.parse, c)) {
        Some(parts) => parts,
        None => relative_parts(parts_of(ctx, c), ctx.parse.nodes@[c].span.start),
    }
}

/// The schema diagnostics of the root's children from element `k` on, as far
/// as possible from the entries.
pub open spec fn cached_children(
    entries: Seq<CacheEntryView>,
    ctx: Ctx<'_>,
    k: int,
) -> Seq<DiagnosticView>
    decreases ctx.parse.nodes@[0].elements@.len() - k,
{
    if k < 0 || k >= ctx.parse.nodes@[0].elements@.len() {
        nothing()
    } else {
        let here = match ctx.parse.nodes@[0].elements@[k] {
            Element::Node(c) => assembled(
                ctx,
                c as int,
                absolute_parts(
                    looked_up(entries, ctx, c as int),
                    ctx.parse.nodes@[c as int].span.start,
                ),
            ),
            Element::Token(_) => nothing(),
        };
        here + cached_children(entries, ctx, k + 1)
    }
}

/// All diagnostics of a document, those of its blocks as far as possible from
/// the entries.
pub open spec fn cached_diags(entries: Seq<CacheEntryView>, ctx: Ctx<'_>) -> Seq<DiagnosticView> {
    let suppression = suppressions_from(ctx.parse, 0);
    kept(
        syntax_diags(ctx.parse.errors@, 0) + cached_children(entries, ctx, 0) + map_layer_diags(ctx)
            + suppression.hints,
        suppression.codes,
    )
}

/// The entries for the next run, from element `k` on: one for each child.
pub open spec fn next_entries(
    entries: Seq<CacheEntryView>,
    ctx: Ctx<'_>,
    k: int,
) -> Seq<CacheEntryView>
    decreases ctx.parse.nodes@[0].elements@.len() - k,
{
    if k < 0 || k >= ctx.parse.nodes@[0].elements@.len() {
        Seq::empty()
    } else {
        let here = match ctx.parse.nodes@[0].elements@[k] {
            Element::Node(c) => seq![
                CacheEntryView {
                    tree: child_tree(ctx.parse, c as int),
                    parts: looked_up(entries, ctx, c as int),
                },
            ],
            Element::Token(_) => Seq::empty(),
        };
        here + next_entries(entries, ctx, k + 1)
    }
}

/// A node of a document under a schema, in a file of a layer, has that
/// subtree.
pub open spec fn has_tree(
    ctx: Ctx<'_>,
    c: int,
    analyzer: &Analyzer,
    layer: bool,
    tree: TreeView,
) -> bool {
    &&& ctx.analyzer == analyzer
    &&& in_override_layer(ctx) == layer
    &&& ctx.parse.wf()
    &&& 0 <= c < ctx.parse.nodes@.len()
    &&& child_tree(ctx.parse, c) == tree
}

/// What an entry holds is what every node with its subtree has, in any
/// document and with any index.
pub open spec fn entry_sound(entry: CacheEntryView, analyzer: &Analyzer, layer: bool) -> bool {
    forall|ctx: Ctx<'_>, c: int| #[trigger]
        has_tree(ctx, c, analyzer, layer, entry.tree) ==> entry.parts == relative_parts(
            parts_of(ctx, c),
            ctx.parse.nodes@[c].span.start,
        )
}

/// Every entry holds what its subtree has, under one schema and in files of
/// one layer.
pub open spec fn entries_sound(
    entries: Seq<CacheEntryView>,
    analyzer: &Analyzer,
    layer: bool,
) -> bool {
    forall|i: int| 0 <= i < entries.len() ==> entry_sound(#[trigger] entries[i], analyzer, layer)
}

/// The index generation that a context reads.
pub open spec fn context_generation(ctx: Ctx<'_>) -> Option<u64> {
    match ctx.index {
        Some(index) => Some(index.generation),
        None => None,
    }
}

/// The entries that still count for a context.
pub open spec fn live_entries(cache: DiagnosticsCache, ctx: Ctx<'_>) -> Seq<CacheEntryView> {
    if cache.generation == context_generation(ctx) {
        entry_views(cache.entries@)
    } else {
        Seq::empty()
    }
}

/// How many children from element `k` on are found among the entries.
pub open spec fn hit_count(entries: Seq<CacheEntryView>, parse: &Parse, k: int) -> nat
    decreases parse.nodes@[0].elements@.len() - k,
{
    if k < 0 || k >= parse.nodes@[0].elements@.len() {
        0
    } else {
        hit_count(entries, parse, k + 1) + match parse.nodes@[0].elements@[k] {
            Element::Node(c) => if held(entries, child_tree(parse, c as int)) is Some {
                1nat
            } else {
                0nat
            },
            Element::Token(_) => 0nat,
        }
    }
}

/// How many children stand from element `k` on.
pub open spec fn child_count(parse: &Parse, k: int) -> nat
    decreases parse.nodes@[0].elements@.len() - k,
{
    if k < 0 || k >= parse.nodes@[0].elements@.len() {
        0
    } else {
        child_count(parse, k + 1) + match parse.nodes@[0].elements@[k] {
            Element::Node(_) => 1nat,
            Element::Token(_) => 0nat,
        }
    }
}

/// A counter that stops at its greatest value.
pub open spec fn counted(start: u64, more: nat) -> u64 {
    if start + more <= u64::MAX {
        (start + more) as u64
    } else {
        u64::MAX
    }
}

fn count_one(n: u64) -> (r: u64)
    ensures
        r == counted(n, 1),
{
    if n < u64::MAX {
        n + 1
    } else {
        n
    }
}

fn find_entry(entries: &Vec<CacheEntry>, parse: &Parse, c: usize) -> (r: Option<usize>)
    requires
        parse.wf(),
        c < parse.nodes.len(),
    ensures
        match r {
            Some(i) => i < entries.len() && held(
                entry_views(entries@),
                child_tree(parse, c as int),
            ) == Some(entries@[i as int].parts@) && entries@[i as int]@.tree == child_tree(
                parse,
                c as int,
            ),
            None => held(entry_views(entries@), child_tree(parse, c as int)) is None,
        },
{
    let offset: u32 = parse.nodes[c].span.start;
    let ghost tree = child_tree(parse, c as int);
    let ghost all = entry_views(entries@);
    let mut i: usize = entries.len();
    assert(all.take(i as int) =~= all);
    while i > 0
        invariant
            i <= entries.len(),
            parse.wf(),
            c < parse.nodes.len(),
            offset == parse.nodes@[c as int].span.start,
            tree == child_tree(parse, c as int),
            all == entry_views(entries@),
            held(all, tree) == held(all.take(i as int), tree),
        decreases i,
    {
        i -= 1;
        proof {
            assert(all.take(i + 1).drop_last() =~= all.take(i as int));
            assert(all.take(i + 1).last() == entries@[i as int]@);
        }
        if is_shape_of(&entries[i].shape, parse, c, offset) {
            return Some(i);
        }
    }
    None
}

impl DiagnosticsCache {
    /// An empty cache.
    pub fn new() -> (r: DiagnosticsCache)
        ensures
            r.generation is None,
            r.entries@.len() == 0,
            r.hits == 0,
            r.misses == 0,
    {
        DiagnosticsCache { generation: None, entries: Vec::new(), hits: 0, misses: 0 }
    }

    /// Cumulative (hits, misses) over the cache's lifetime.
    pub fn stats(&self) -> (r: (u64, u64))
        ensures
            r == (self.hits, self.misses),
    {
        (self.hits, self.misses)
    }
}

/// Like [`diagnose`], but reuses the fixed parts of a block from `cache` where
/// its subtree is unchanged. A cache that only runs under the same schema and
/// in files of the same layer have used gives what [`diagnose`] gives,
/// whatever was edited and however the index changed in between.
pub fn diagnose_with_cache(
    analyzer: &Analyzer,
    parse: &Parse,
    index: Option<&WorkspaceIndex>,
    file: Option<&str>,
    cache: &mut DiagnosticsCache,
) -> (r: Vec<Diagnostic>)
    requires
        parse.wf(),
    ensures
        ({
            let ctx = Ctx { analyzer, parse, index, file };
            let live = live_entries(*old(cache), ctx);
            &&& diags(r@) == cached_diags(live, ctx)
            &&& final(cache).generation == context_generation(ctx)
            &&& entry_views(final(cache).entries@) == next_entries(live, ctx, 0)
            &&& final(cache).hits == counted(old(cache).hits, hit_count(live, parse, 0))
            &&& final(cache).misses == counted(
                old(cache).misses,
                (child_count(parse, 0) - hit_count(live, parse, 0)) as nat,
            )
            &&& entries_sound(
                entry_views(old(cache).entries@),
                analyzer,
                in_override_layer(ctx),
            ) ==> diags(r@) == document_diags(ctx) && entries_sound(
                entry_views(final(cache).entries@),
                analyzer,
                in_override_layer(ctx),
            )
        }),
{
    let ctx = Ctx { analyzer, parse, index, file };
    let ghost live = live_entries(*cache, ctx);
    let ghost h0 = cache.hits;
    let ghost m0 = cache.misses;
    let generation: Option<u64> = match ctx.index {
        Some(index) => Some(index.generation),
        None => None,
    };
    let unchanged = match (cache.generation, generation) {
        (Some(a), Some(b)) => a == b,
        (None, None) => true,
        _ => false,
    };
    if !unchanged {
        cache.entries.clear();
        cache.generation = generation;
    }
    assert(entry_views(cache.entries@) =~= live);
    let mut out = parser_errors(ctx.parse);
    let ghost d0 = diags(out@);
    let ghost all_next = next_entries(live, ctx, 0);
    let mut next: Vec<CacheEntry> = Vec::new();
    assert(entry_views(next@) + all_next =~= all_next);
    let mut hits: u64 = cache.hits;
    let mut misses: u64 = cache.misses;
    let ghost mut seen_hits: nat = 0;
    let ghost mut seen_misses: nat = 0;
    let mut k: usize = 0;
    while k < ctx.parse.nodes[0].elements.len()
        invariant
            ctx.parse.wf(),
            k <= ctx.parse.nodes@[0].elements.len(),
            entry_views(cache.entries@) == live,
            cache.generation == context_generation(ctx),
            all_next == entry_views(next@) + next_entries(live, ctx, k as int),
            hits == counted(h0, seen_hits),
            misses == counted(m0, seen_misses),
            seen_hits + hit_count(live, ctx.parse, k as int) == hit_count(live, ctx.parse, 0),
            seen_hits + seen_misses + child_count(ctx.parse, k as int) == child_count(
                ctx.parse,
                0,
            ),
            diags(out@) + cached_children(live, ctx, k as int) == d0 + cached_children(
                live,
                ctx,
                0,
            ),
        decreases ctx.parse.nodes@[0].elements.len() - k,
    {
        let ghost d1 = diags(out@);
        let ghost n1 = entry_views(next@);
        if let Element::Node(c) = &ctx.parse.nodes[0].elements[k] {
            let c: usize = *c;
            let offset: u32 = ctx.parse.nodes[c].span.start;
            let entry = match find_entry(&cache.entries, ctx.parse, c) {
                Some(at) => {
                    hits = count_one(hits);
                    proof {
                        seen_hits = seen_hits + 1;
                    }
                    CacheEntry {
                        shape: shape_of(ctx.parse, c, offset),
                        parts: copy_parts(&cache.entries[at].parts),
                    }
                },
                None => {
                    misses = count_one(misses);
                    proof {
                        seen_misses = seen_misses + 1;
                    }
                    let whole = steady_parts(ctx, c);
                    CacheEntry {
                        shape: shape_of(ctx.parse, c, offset),
                        parts: lower_parts(&whole, offset),
                    }
                },
            };
            assert(entry@.parts == looked_up(live, ctx, c as int));
            let here = raise_parts(&entry.parts, offset);
            assemble(ctx, c, &here, &mut out);
            let ghost item = entry@;
            next.push(entry);
            assert(entry_views(next@) =~= n1.push(item));
        }
        assert(diags(out@) + cached_children(live, ctx, k + 1) =~= d1 + cached_children(
            live,
            ctx,
            k as int,
        ));
        assert(entry_views(next@) + next_entries(live, ctx, k + 1) =~= n1 + next_entries(
            live,
            ctx,
            k as int,
        ));
        k += 1;
    }
    assert(entry_views(next@) =~= all_next);
    cache.entries = next;
    cache.hits = hits;
    cache.misses = misses;
    map_layer_diagnostics(ctx, &mut out);
    assert(diags(out@) =~= syntax_diags(ctx.parse.errors@, 0) + cached_children(live, ctx, 0)
        + map_layer_diags(ctx));
    proof {
        if entries_sound(entry_views(old(cache).entries@), analyzer, in_override_layer(ctx)) {
            law_sound_cache_changes_nothing(live, ctx);
        }
    }
    apply_suppressions(ctx.parse, out)
}

proof fn lemma_held_sound(
    entries: Seq<CacheEntryView>,
    tree: TreeView,
    analyzer: &Analyzer,
    layer: bool,
)
    requires
        entries_sound(entries, analyzer, layer),
    ensures
        held(entries, tree) matches Some(parts) ==> entry_sound(
            CacheEntryView { tree, parts },
            analyzer,
            layer,
        ),
    decreases entries.len(),
{
    if entries.len() > 0 {
        let last = entries.last();
        assert(entry_sound(entries[entries.len() - 1], analyzer, layer));
        if last.tree == tree {
            assert(last == CacheEntryView { tree, parts: last.parts });
        } else {
            let rest = entries.drop_last();
            assert forall|i: int| 0 <= i < rest.len() implies entry_sound(
                #[trigger] rest[i],
                analyzer,
                layer,
            ) by {
                assert(rest[i] == entries[i]);
            }
            lemma_held_sound(rest, tree, analyzer, layer);
        }
    }
}

proof fn lemma_looked_up_sound(entries: Seq<CacheEntryView>, ctx: Ctx<'_>, c: int)
    requires
        ctx.parse.wf(),
        0 <= c < ctx.parse.nodes@.len(),
        entries_sound(entries, ctx.analyzer, in_override_layer(ctx)),
    ensures
        entry_sound(
            CacheEntryView {
                tree: child_tree(ctx.parse, c),
                parts: looked_up(entries, ctx, c),
            },
            ctx.analyzer,
            in_override_layer(ctx),
        ),
        looked_up(entries, ctx, c) == relative_parts(
            parts_of(ctx, c),
            ctx.parse.nodes@[c].span.start,
        ),
{
    let tree = child_tree(ctx.parse, c);
    let layer = in_override_layer(ctx);
    let entry = CacheEntryView { tree, parts: looked_up(entries, ctx, c) };
    lemma_held_sound(entries, tree, ctx.analyzer, layer);
    assert(has_tree(ctx, c, ctx.analyzer, layer, entry.tree));
    if held(entries, tree) is None {
        assert forall|other: Ctx<'_>, b: int| #[trigger]
            has_tree(other, b, ctx.analyzer, layer, entry.tree) implies entry.parts
            == relative_parts(parts_of(other, b), other.parse.nodes@[b].span.start) by {
            law_parts_move_with_the_block(
                ctx,
                c,
                ctx.parse.nodes@[c].span.start,
                other,
                b,
                other.parse.nodes@[b].span.start,
            );
        }
    }
}

proof fn lemma_sound_children(entries: Seq<CacheEntryView>, ctx: Ctx<'_>, k: int)
    requires
        ctx.parse.wf(),
        entries_sound(entries, ctx.analyzer, in_override_layer(ctx)),
        0 <= k <= ctx.parse.nodes@[0].elements@.len(),
    ensures
        cached_children(entries, ctx, k) == children_diags(ctx, k),
        entries_sound(next_entries(entries, ctx, k), ctx.analyzer, in_override_layer(ctx)),
    decreases ctx.parse.nodes@[0].elements@.len() - k,
{
    if k < ctx.parse.nodes@[0].elements@.len() {
        lemma_sound_children(entries, ctx, k + 1);
        match ctx.parse.nodes@[0].elements@[k] {
            Element::Node(n) => {
                let c = n as int;
                lemma_looked_up_sound(entries, ctx, c);
                law_parts_round_trip(parts_of(ctx, c), ctx.parse.nodes@[c].span.start);
                law_parts_give_the_findings(ctx, c);
                let entry = CacheEntryView {
                    tree: child_tree(ctx.parse, c),
                    parts: looked_up(entries, ctx, c),
                };
                let rest = next_entries(entries, ctx, k + 1);
                let all = next_entries(entries, ctx, k);
                assert(all == seq![entry] + rest);
                assert forall|i: int| 0 <= i < all.len() implies entry_sound(
                    #[trigger] all[i],
                    ctx.analyzer,
                    in_override_layer(ctx),
                ) by {
                    if i > 0 {
                        assert(all[i] == rest[i - 1]);
                    }
                }
            },
            Element::Token(_) => {
                assert(next_entries(entries, ctx, k) =~= next_entries(entries, ctx, k + 1));
            },
        }
    }
}

/// With entries that are sound, a run gives what it gives without any, and
/// leaves entries that are sound.
pub proof fn law_sound_cache_changes_nothing(entries: Seq<CacheEntryView>, ctx: Ctx<'_>)
    requires
        ctx.parse.wf(),
        entries_sound(entries, ctx.analyzer, in_override_layer(ctx)),
    ensures
        cached_diags(entries, ctx) == document_diags(ctx),
        entries_sound(next_entries(entries, ctx, 0), ctx.analyzer, in_override_layer(ctx)),
{
    lemma_sound_children(entries, ctx, 0);
}

/// The generation and the entries of a new cache after the first `n` runs.
pub open spec fn after_runs(runs: Seq<Ctx<'_>>, n: int) -> (Option<u64>, Seq<CacheEntryView>)
    decreases n, 0int,
{
    if n <= 0 {
        (None, Seq::empty())
    } else {
        (
            context_generation(runs[n - 1]),
            next_entries(entries_for(runs, n - 1), runs[n - 1], 0),
        )
    }
}

/// The entries that run `n` on a new cache may use.
pub open spec fn entries_for(runs: Seq<Ctx<'_>>, n: int) -> Seq<CacheEntryView>
    decreases n, 1int,
{
    let (generation, entries) = after_runs(runs, n);
    if generation == context_generation(runs[n]) {
        entries
    } else {
        Seq::empty()
    }
}

/// Whatever runs used a new cache before, over whatever documents and with
/// whatever index, as long as they are under one schema and in files of one
/// layer: the cached diagnostics are those of an uncached run.
pub proof fn law_cached_runs_match(runs: Seq<Ctx<'_>>, n: int)
    requires
        0 <= n < runs.len(),
        forall|i: int|
            0 <= i < runs.len() ==> (#[trigger] runs[i]).parse.wf() && runs[i].analyzer
                == runs[0].analyzer && in_override_layer(runs[i]) == in_override_layer(runs[0]),
    ensures
        cached_diags(entries_for(runs, n), runs[n]) == document_diags(runs[n]),
        entries_sound(entries_for(runs, n), runs[0].analyzer, in_override_layer(runs[0])),
    decreases n,
{
    if n > 0 {
        law_cached_runs_match(runs, n - 1);
        assert(runs[n - 1].parse.wf());
        law_sound_cache_changes_nothing(entries_for(runs, n - 1), runs[n - 1]);
    }
    assert(runs[n].parse.wf());
    assert(entries_sound(entries_for(runs, n), runs[0].analyzer, in_override_layer(runs[0])));
    law_sound_cache_changes_nothing(entries_for(runs, n), runs[n]);
}

/// Suppression drops the diagnostics of the listed codes, and no others.
pub proof fn law_suppression_drops_listed_codes(
    list: Seq<DiagnosticView>,
    codes: Seq<Seq<char>>,
    d: DiagnosticView,
)
    ensures
        kept(list, codes).contains(d) <==> list.contains(d) && !codes.contains(d.code),
    decreases list.len(),
{
    if list.len() > 0 {
        let rest = list.drop_last();
        law_suppression_drops_listed_codes(rest, codes, d);
        let before = kept(rest, codes);
        assert(list =~= rest.push(list.last()));
        assert(list.contains(d) <==> rest.contains(d) || d == list.last()) by {
            if list.contains(d) {
                let i = choose|i: int| 0 <= i < list.len() && list[i] == d;
                if i < rest.len() {
                    assert(rest[i] == d);
                }
            }
            if rest.contains(d) {
                let i = choose|i: int| 0 <= i < rest.len() && rest[i] == d;
                assert(list[i] == d);
            }
            assert(list[list.len() - 1] == list.last());
        }
        if !codes.contains(list.last().code) {
            let after = before.push(list.last());
            if before.contains(d) {
                let i = choose|i: int| 0 <= i < before.len() && before[i] == d;
                assert(after[i] == d);
            }
            assert(after[before.len() as int] == list.last());
            if after.contains(d) {
                let i = choose|i: int| 0 <= i < after.len() && after[i] == d;
                if i < before.len() {
                    assert(before[i] == d);
                }
            }
        }
    }
}

/// With nothing suppressed, nothing changes.
pub proof fn law_no_suppression_keeps_all(list: Seq<DiagnosticView>)
    ensures
        kept(list, Seq::empty()) == list,
    decreases list.len(),
{
    if list.len() > 0 {
        law_no_suppression_keeps_all(list.drop_last());
        assert(list.drop_last().push(list.last()) =~= list);
    }
}

} // verus!
