//! One-shot diagnostics for shells and scripts: what to check, how findings
//! are placed, ordered and counted, and when a check fails.

use vstd::prelude::*;

use crate::analyzer::Analyzer;
use crate::diagnostics::{diagnose, document_diags};
use crate::index::WorkspaceIndex;
use crate::order::{
    le_text, lemma_text_le_antisym, lemma_text_le_total, lemma_text_le_trans, sort, sorted,
    text_le, views, Ranked,
};
use crate::reader::{read_text, tree_of};
use crate::rope::char_of_byte;
use crate::syntax::Parse;
use crate::text::{
    byte_len, bytes_in, chars_of, decimal, join5, lemma_byte_len_add, number, same, texts,
};
use crate::values::{Ctx, Diagnostic, DiagnosticView, Severity};

verus! {

/// How many of the targets are standard input.
pub open spec fn stdin_count(targets: Seq<Seq<char>>, i: int) -> nat
    decreases targets.len() - i,
{
    if i < 0 || i >= targets.len() {
        0
    } else {
        (if targets[i] == "-"@ {
            1nat
        } else {
            0nat
        }) + stdin_count(targets, i + 1)
    }
}

/// Decides whether standard input is a target, or why the targets are refused.
pub fn check_targets(targets: &Vec<String>, names_stdin: bool) -> (r: Result<bool, &'static str>)
    ensures
        ({
            let n = stdin_count(texts(targets@), 0);
            match r {
                Ok(reads) => n <= 1 && reads == (n == 1) && !(names_stdin && n == 0),
                Err(e) => if n > 1 {
                    e@ == "stdin target '-' may only be specified once"@
                } else {
                    names_stdin && n == 0 && e@ == "--stdin-filename requires the '-' target"@
                },
            }
        }),
{
    let ghost ts = texts(targets@);
    let mut found: bool = false;
    let mut again: bool = false;
    let mut i: usize = 0;
    while i < targets.len()
        invariant
            i <= targets.len(),
            ts == texts(targets@),
            again ==> found,
            again ==> stdin_count(ts, 0) > 1,
            !again ==> stdin_count(ts, 0) == stdin_count(ts, i as int) + if found {
                1nat
            } else {
                0nat
            },
        decreases targets.len() - i,
    {
        assert(ts[i as int] == targets@[i as int]@);
        if same(targets[i].as_str(), "-") {
            if found {
                again = true;
            }
            found = true;
        }
        i += 1;
    }
    if again {
        return Err("stdin target '-' may only be specified once");
    }
    if names_stdin && !found {
        return Err("--stdin-filename requires the '-' target");
    }
    Ok(found)
}

/// What a root is given for.
#[derive(Debug, Clone, Copy, PartialEq, Eq, Structural)]
pub enum RootKind {
    Base,
    Target,
}

/// Decides whether a root is supported, or what was expected in its place.
pub fn check_root(is_dir: bool, extension: &str, kind: RootKind) -> (r: Result<(), &'static str>)
    ensures
        ({
            let wanted = match kind {
                RootKind::Base => "big"@,
                RootKind::Target => "ini"@,
            };
            match r {
                Ok(_) => is_dir || crate::text::same_ci(extension@, wanted),
                Err(e) => !is_dir && !crate::text::same_ci(extension@, wanted) && e@ == (match kind {
                    RootKind::Base => "a directory or .big archive"@,
                    RootKind::Target => "a directory or .ini file"@,
                }),
            }
        }),
{
    if is_dir {
        return Ok(());
    }
    match kind {
        RootKind::Base => if crate::text::eq_ci(extension, "big") {
            Ok(())
        } else {
            Err("a directory or .big archive")
        },
        RootKind::Target => if crate::text::eq_ci(extension, "ini") {
            Ok(())
        } else {
            Err("a directory or .ini file")
        },
    }
}

/// A severity of the output.
#[derive(Debug, Clone, Copy, PartialEq, Eq, Structural)]
pub enum OutputSeverity {
    Error,
    Warning,
    Hint,
}

/// The severity of a finding in the output.
pub open spec fn output_severity(severity: Severity) -> OutputSeverity {
    match severity {
        Severity::Error => OutputSeverity::Error,
        Severity::Warning => OutputSeverity::Warning,
        Severity::Hint => OutputSeverity::Hint,
    }
}

impl OutputSeverity {
    pub open spec fn level(self) -> u8 {
        match self {
            OutputSeverity::Error => 3,
            OutputSeverity::Warning => 2,
            OutputSeverity::Hint => 1,
        }
    }

    pub open spec fn word(self) -> Seq<char> {
        match self {
            OutputSeverity::Error => "error"@,
            OutputSeverity::Warning => "warning"@,
            OutputSeverity::Hint => "hint"@,
        }
    }

    /// How grave the severity is.
    pub fn rank(self) -> (r: u8)
        ensures
            r == self.level(),
    {
        match self {
            OutputSeverity::Error => 3,
            OutputSeverity::Warning => 2,
            OutputSeverity::Hint => 1,
        }
    }

    /// The severity as it is printed.
    pub fn as_str(self) -> (r: &'static str)
        ensures
            r@ == self.word(),
    {
        match self {
            OutputSeverity::Error => "error",
            OutputSeverity::Warning => "warning",
            OutputSeverity::Hint => "hint",
        }
    }

    fn of(severity: Severity) -> (r: OutputSeverity)
        ensures
            r == output_severity(severity),
    {
        match severity {
            Severity::Error => OutputSeverity::Error,
            Severity::Warning => OutputSeverity::Warning,
            Severity::Hint => OutputSeverity::Hint,
        }
    }
}

/// The level that `--fail-on` asks for.
pub fn fail_level(word: &str) -> (r: Option<u8>)
    ensures
        r == (if word@ == "error"@ {
            Some(3u8)
        } else if word@ == "warning"@ {
            Some(2u8)
        } else if word@ == "hint"@ {
            Some(1u8)
        } else {
            None
        }),
{
    if same(word, "error") {
        Some(3)
    } else if same(word, "warning") {
        Some(2)
    } else if same(word, "hint") {
        Some(1)
    } else {
        None
    }
}

/// A line and a column, both from one.
#[derive(Debug, Clone, Copy, PartialEq, Eq, Structural)]
pub struct OutputPosition {
    pub line: usize,
    pub column: usize,
}

/// A range of the output.
#[derive(Debug, Clone, Copy, PartialEq, Eq, Structural)]
pub struct OutputRange {
    pub start: OutputPosition,
    pub end: OutputPosition,
}

/// How many line feeds stand before the `n`th scalar.
pub open spec fn feeds(s: Seq<char>, n: int) -> nat
    decreases n,
{
    if n <= 0 {
        0
    } else {
        feeds(s, n - 1) + if s[n - 1] == '\n' {
            1nat
        } else {
            0nat
        }
    }
}

/// How many scalars stand between the last line feed before the `n`th scalar
/// and that scalar.
pub open spec fn since_feed(s: Seq<char>, n: int) -> nat
    decreases n,
{
    if n <= 0 || s[n - 1] == '\n' {
        0
    } else {
        since_feed(s, n - 1) + 1
    }
}

/// The scalar at a byte offset. An offset past the end stands for the end.
pub open spec fn scalar_at(s: Seq<char>, offset: nat) -> int {
    char_of_byte(
        s,
        if offset < byte_len(s) {
            offset
        } else {
            byte_len(s)
        },
    ) as int
}

/// The line and column of a byte offset, counted in scalars from one.
pub open spec fn output_position(s: Seq<char>, offset: nat) -> (int, int) {
    let c = scalar_at(s, offset);
    (feeds(s, c) as int + 1, since_feed(s, c) as int + 1)
}

/// The start of a line.
#[derive(Debug, Clone, Copy, PartialEq, Eq, Structural)]
pub struct LineStart {
    pub byte: usize,
    pub scalar: usize,
}

/// The starts of the lines of a text.
#[derive(Debug)]
pub struct LineIndex {
    pub starts: Vec<LineStart>,
    pub chars: Vec<char>,
}

proof fn lemma_feeds_grow(s: Seq<char>, a: int, b: int)
    requires
        0 <= a <= b,
    ensures
        feeds(s, a) <= feeds(s, b),
    decreases b - a,
{
    if a < b {
        lemma_feeds_grow(s, a, b - 1);
    }
}

proof fn lemma_since_feed(s: Seq<char>, p: int, c: int)
    requires
        0 <= p <= c,
        p == 0 || s[p - 1] == '\n',
        feeds(s, p) == feeds(s, c),
    ensures
        since_feed(s, c) == c - p,
    decreases c - p,
{
    if p < c {
        lemma_feeds_grow(s, p, c - 1);
        lemma_since_feed(s, p, c - 1);
    }
}

/// How many bytes a scalar takes.
pub open spec fn scalar_width(c: char) -> nat {
    byte_len(seq![c])
}

fn width(c: char) -> (r: usize)
    ensures
        r == scalar_width(c),
        1 <= r <= 4,
{
    assert(vstd::utf8::encode_utf8(seq![c]) == vstd::utf8::encode_scalar(c as u32)
        + vstd::utf8::encode_utf8(seq![c].drop_first()));
    assert(seq![c].drop_first() =~= Seq::<char>::empty());
    let code: u32 = c as u32;
    if code <= 0x7f {
        1
    } else if code <= 0x7ff {
        2
    } else if code <= 0xffff {
        3
    } else {
        4
    }
}

proof fn lemma_front_step(s: Seq<char>, i: int)
    requires
        0 <= i < s.len(),
    ensures
        byte_len(s.take(i + 1)) == byte_len(s.take(i)) + scalar_width(s[i]),
        byte_len(s.take(i + 1)) <= byte_len(s),
{
    assert(s.take(i + 1) =~= s.take(i) + seq![s[i]]);
    lemma_byte_len_add(s.take(i), seq![s[i]]);
    crate::rope::lemma_fronts(s, i + 1, s.len() as int);
    assert(s.take(s.len() as int) =~= s);
}

impl LineIndex {
    /// The index holds the starts of exactly the lines of the text.
    pub open spec fn indexes(&self, s: Seq<char>) -> bool {
        &&& self.chars@ == s
        &&& self.starts@.len() == feeds(s, s.len() as int) + 1
        &&& forall|k: int|
            #![trigger self.starts@[k]]
            0 <= k < self.starts@.len() ==> {
                &&& self.starts@[k].scalar <= s.len()
                &&& self.starts@[k].byte == byte_len(s.take(self.starts@[k].scalar as int))
                &&& feeds(s, self.starts@[k].scalar as int) == k
                &&& k == 0 ==> self.starts@[k].scalar == 0
                &&& k > 0 ==> self.starts@[k].scalar > 0 && s[self.starts@[k].scalar - 1] == '\n'
            }
    }

    pub fn new(text: &str) -> (r: LineIndex)
        ensures
            r.indexes(text@),
    {
        let chars = chars_of(text);
        let ghost s = text@;
        let total: usize = bytes_in(text);
        let mut starts: Vec<LineStart> = Vec::new();
        starts.push(LineStart { byte: 0, scalar: 0 });
        let mut byte: usize = 0;
        let mut i: usize = 0;
        assert(s.take(0) =~= Seq::<char>::empty());
        while i < chars.len()
            invariant
                i <= chars.len(),
                chars@ == s,
                total == byte_len(s),
                byte == byte_len(s.take(i as int)),
                starts@.len() == feeds(s, i as int) + 1,
                forall|k: int|
                    #![trigger starts@[k]]
                    0 <= k < starts@.len() ==> {
                        &&& starts@[k].scalar <= i
                        &&& starts@[k].byte == byte_len(s.take(starts@[k].scalar as int))
                        &&& feeds(s, starts@[k].scalar as int) == k
                        &&& k == 0 ==> starts@[k].scalar == 0
                        &&& k > 0 ==> starts@[k].scalar > 0 && s[starts@[k].scalar - 1] == '\n'
                    },
            decreases chars.len() - i,
        {
            proof {
                lemma_front_step(s, i as int);
            }
            let c: char = chars[i];
            byte = byte + width(c);
            i += 1;
            if c == '\n' {
                starts.push(LineStart { byte, scalar: i });
            }
        }
        LineIndex { starts, chars }
    }

    /// The line and column of a byte offset, counted in scalars from one.
    pub fn position(&self, text: &str, offset: usize) -> (r: OutputPosition)
        requires
            self.indexes(text@),
            text@.len() < usize::MAX,
        ensures
            (r.line as int, r.column as int) == output_position(text@, offset as nat),
    {
        let ghost s = text@;
        let total: usize = bytes_in(text);
        let at: usize = if offset < total {
            offset
        } else {
            total
        };
        let mut low: usize = 0;
        let mut high: usize = self.starts.len();
        assert(self.starts@[0].scalar == 0);
        assert(s.take(0) =~= Seq::<char>::empty());
        // `low` counts lines that start at or before the offset.
        low = 1;
        while low < high
            invariant
                self.indexes(s),
                1 <= low <= high <= self.starts.len(),
                self.starts@[low - 1].byte <= at,
                high < self.starts@.len() ==> self.starts@[high as int].byte > at,
            decreases high - low,
        {
            let middle: usize = low + (high - low) / 2;
            if self.starts[middle].byte <= at {
                low = middle + 1;
            } else {
                high = middle;
            }
        }
        let line: usize = low - 1;
        let start: LineStart = self.starts[line];
        let mut byte: usize = start.byte;
        let mut c: usize = start.scalar;
        let ghost target = char_of_byte(s, at as nat);
        while c < self.chars.len() && width(self.chars[c]) <= at - byte
            invariant
                self.indexes(s),
                s.len() < usize::MAX,
                total == byte_len(s),
                at <= total,
                start.scalar <= c <= self.chars.len(),
                byte == byte_len(s.take(c as int)),
                byte <= at,
            decreases self.chars.len() - c,
        {
            proof {
                lemma_front_step(s, c as int);
            }
            byte = byte + width(self.chars[c]);
            c += 1;
        }
        proof {
            lemma_found(s, at as nat, c as int);
            assert(self.starts@[line as int] == start);
            lemma_feeds_grow(s, start.scalar as int, c as int);
            if low < self.starts@.len() {
                let next = self.starts@[low as int];
                if c >= next.scalar {
                    crate::rope::lemma_fronts(s, next.scalar as int, c as int);
                    assert(false);
                }
                lemma_feeds_grow(s, c as int, next.scalar - 1);
            } else {
                lemma_feeds_grow(s, c as int, s.len() as int);
            }
            lemma_since_feed(s, start.scalar as int, c as int);
        }
        OutputPosition { line: line + 1, column: c - start.scalar + 1 }
    }
}

proof fn lemma_found(s: Seq<char>, byte: nat, c: int)
    requires
        0 <= c <= s.len(),
        byte_len(s.take(c)) <= byte <= byte_len(s),
        c < s.len() ==> byte < byte_len(s.take(c)) + scalar_width(s[c]),
    ensures
        char_of_byte(s, byte) == c,
    decreases s.len(),
{
    if c == s.len() {
        assert(s.take(c) =~= s);
    } else {
        lemma_front_step(s, c);
        if byte_len(s) <= byte {
            assert(false);
        }
        let front = s.drop_last();
        assert(front.take(c) =~= s.take(c));
        if c < front.len() {
            assert(front[c] == s[c]);
        } else {
            assert(front.take(c) =~= front);
        }
        crate::rope::lemma_char_of_byte_bounds(front, byte);
        if byte > byte_len(front) {
            // The byte lies inside the last scalar.
            if c < front.len() {
                lemma_front_step(front, c);
            }
            assert(c == front.len());
        } else {
            lemma_found(front, byte, c);
        }
    }
}

/// A document to check.
#[derive(Clone, Copy)]
pub struct TargetDocument<'a> {
    /// The name that findings are printed under.
    pub display: &'a str,
    /// The name that the index knows it by.
    pub file: &'a str,
    pub text: &'a str,
}

impl<'a> View for TargetDocument<'a> {
    type V = TargetDocument<'a>;

    open spec fn view(&self) -> TargetDocument<'a> {
        *self
    }
}

impl<'a> Ranked for TargetDocument<'a> {
    open spec fn at_most(a: TargetDocument<'a>, b: TargetDocument<'a>) -> bool {
        text_le(a.display@, b.display@)
    }

    fn is_at_most(&self, other: &Self) -> (r: bool) {
        le_text(self.display, other.display)
    }
}

/// A finding of the output.
#[derive(Debug)]
pub struct OutputDiagnostic {
    pub file: String,
    pub range: OutputRange,
    pub severity: OutputSeverity,
    pub code: &'static str,
    pub message: String,
}

/// The model of an [`OutputDiagnostic`].
pub struct OutputView {
    pub file: Seq<char>,
    pub start: (int, int),
    pub end: (int, int),
    pub severity: OutputSeverity,
    pub code: Seq<char>,
    pub message: Seq<char>,
}

impl View for OutputDiagnostic {
    type V = OutputView;

    open spec fn view(&self) -> OutputView {
        OutputView {
            file: self.file@,
            start: (self.range.start.line as int, self.range.start.column as int),
            end: (self.range.end.line as int, self.range.end.column as int),
            severity: self.severity,
            code: self.code@,
            message: self.message@,
        }
    }
}

pub open spec fn pair_le(a: (int, int), b: (int, int)) -> bool {
    a.0 < b.0 || (a.0 == b.0 && a.1 <= b.1)
}

/// Findings are ordered by file, range and code.
pub open spec fn output_le(a: OutputView, b: OutputView) -> bool {
    if a.file != b.file {
        text_le(a.file, b.file)
    } else if a.start != b.start {
        pair_le(a.start, b.start)
    } else if a.end != b.end {
        pair_le(a.end, b.end)
    } else {
        text_le(a.code, b.code)
    }
}

fn position_le(a: OutputPosition, b: OutputPosition) -> (r: bool)
    ensures
        r == pair_le((a.line as int, a.column as int), (b.line as int, b.column as int)),
{
    a.line < b.line || (a.line == b.line && a.column <= b.column)
}

impl Ranked for OutputDiagnostic {
    open spec fn at_most(a: OutputView, b: OutputView) -> bool {
        output_le(a, b)
    }

    fn is_at_most(&self, other: &Self) -> (r: bool) {
        if !same(self.file.as_str(), other.file.as_str()) {
            le_text(self.file.as_str(), other.file.as_str())
        } else if self.range.start != other.range.start {
            position_le(self.range.start, other.range.start)
        } else if self.range.end != other.range.end {
            position_le(self.range.end, other.range.end)
        } else {
            le_text(self.code, other.code)
        }
    }
}

/// Findings come out in order, and none is lost.
pub proof fn law_output_is_ordered(findings: Seq<OutputView>)
    ensures
        crate::order::in_order::<OutputDiagnostic>(sorted::<OutputDiagnostic>(findings)),
        sorted::<OutputDiagnostic>(findings).to_multiset() == findings.to_multiset(),
{
    assert forall|a: OutputView, b: OutputView| #[trigger]
        OutputDiagnostic::at_most(a, b) || OutputDiagnostic::at_most(b, a) by {
        lemma_text_le_total(a.file, b.file);
        lemma_text_le_total(a.code, b.code);
    }
    assert forall|a: OutputView, b: OutputView, c: OutputView| #[trigger]
        OutputDiagnostic::at_most(a, b) && #[trigger] OutputDiagnostic::at_most(
        b,
        c,
    ) implies OutputDiagnostic::at_most(a, c) by {
        if a.file != b.file && b.file != c.file {
            lemma_text_le_trans(a.file, b.file, c.file);
            if a.file == c.file {
                lemma_text_le_antisym(a.file, b.file);
            }
        }
        if text_le(a.code, b.code) && text_le(b.code, c.code) {
            lemma_text_le_trans(a.code, b.code, c.code);
        }
    }
    crate::order::law_sorted::<OutputDiagnostic>(findings);
}

/// A finding as it is put out for a document.
pub open spec fn output_of(display: Seq<char>, s: Seq<char>, d: DiagnosticView) -> OutputView {
    OutputView {
        file: display,
        start: output_position(s, d.span.start as nat),
        end: output_position(s, d.span.end as nat),
        severity: output_severity(d.severity),
        code: d.code,
        message: d.message,
    }
}

pub open spec fn outputs_of(display: Seq<char>, s: Seq<char>, list: Seq<DiagnosticView>) -> Seq<
    OutputView,
> {
    list.map_values(|d: DiagnosticView| output_of(display, s, d))
}

fn to_output(display: &str, text: &str, lines: &LineIndex, d: &Diagnostic) -> (r:
    OutputDiagnostic)
    requires
        lines.indexes(text@),
        text@.len() < usize::MAX,
    ensures
        r@ == output_of(display@, text@, d@),
{
    OutputDiagnostic {
        file: display.to_owned(),
        range: OutputRange {
            start: lines.position(text, d.span.start as usize),
            end: lines.position(text, d.span.end as usize),
        },
        severity: OutputSeverity::of(d.severity),
        code: d.code,
        message: d.message.clone(),
    }
}

/// Every tree is that of the document at its place.
pub open spec fn documents_read(
    analyzer: &Analyzer,
    documents: Seq<TargetDocument<'_>>,
    trees: Seq<Parse>,
) -> bool {
    &&& trees.len() == documents.len()
    &&& forall|i: int|
        0 <= i < documents.len() ==> (#[trigger] trees[i]).wf() && tree_of(
            analyzer,
            documents[i].text@,
            &trees[i],
        )
}

/// The findings of a document.
pub open spec fn document_findings(
    analyzer: &Analyzer,
    index: &WorkspaceIndex,
    document: TargetDocument<'_>,
    tree: &Parse,
) -> Seq<OutputView> {
    outputs_of(
        document.display@,
        document.text@,
        document_diags(
            Ctx {
                analyzer,
                parse: tree,
                index: Some(index),
                file: Some(document.file),
            },
        ),
    )
}

/// The findings of the documents from `i` on.
pub open spec fn findings_from(
    analyzer: &Analyzer,
    index: &WorkspaceIndex,
    documents: Seq<TargetDocument<'_>>,
    trees: Seq<Parse>,
    i: int,
) -> Seq<OutputView>
    decreases documents.len() - i,
{
    if i < 0 || i >= documents.len() {
        Seq::empty()
    } else {
        document_findings(analyzer, index, documents[i], &trees[i]) + findings_from(
            analyzer,
            index,
            documents,
            trees,
            i + 1,
        )
    }
}

/// The output of a check: documents by name, then findings in order. The trees
/// are those of the documents by name.
pub open spec fn checked(
    analyzer: &Analyzer,
    index: &WorkspaceIndex,
    documents: Seq<TargetDocument<'_>>,
    trees: Seq<Parse>,
) -> Seq<OutputView> {
    sorted::<OutputDiagnostic>(
        findings_from(analyzer, index, sorted::<TargetDocument<'_>>(documents), trees, 0),
    )
}

fn push_findings(
    out: &mut Vec<OutputDiagnostic>,
    analyzer: &Analyzer,
    index: &WorkspaceIndex,
    document: TargetDocument<'_>,
    tree: &Parse,
)
    requires
        tree.wf(),
        document.text@.len() < usize::MAX,
    ensures
        views(final(out)@) == views(old(out)@) + document_findings(
            analyzer,
            index,
            document,
            tree,
        ),
{
    let found = diagnose(analyzer, tree, Some(index), Some(document.file));
    let lines = LineIndex::new(document.text);
    let ghost list = crate::values::diags(found@);
    let ghost items = document_findings(analyzer, index, document, tree);
    let mut i: usize = 0;
    while i < found.len()
        invariant
            i <= found.len(),
            lines.indexes(document.text@),
            document.text@.len() < usize::MAX,
            list == crate::values::diags(found@),
            items == outputs_of(document.display@, document.text@, list),
            views(out@) == views(old(out)@) + items.take(i as int),
        decreases found.len() - i,
    {
        let ghost before = views(out@);
        assert(list[i as int] == found@[i as int]@);
        let item = to_output(document.display, document.text, &lines, &found[i]);
        out.push(item);
        assert(views(out@) =~= before.push(items[i as int]));
        assert(items.take(i + 1) =~= items.take(i as int).push(items[i as int]));
        i += 1;
    }
    assert(items.take(i as int) =~= items);
}

proof fn lemma_inserted_has(s: Seq<TargetDocument<'_>>, x: TargetDocument<'_>, k: int)
    requires
        0 <= k < crate::order::inserted::<TargetDocument<'_>>(s, x).len(),
    ensures
        crate::order::inserted::<TargetDocument<'_>>(s, x)[k] == x || s.contains(
            crate::order::inserted::<TargetDocument<'_>>(s, x)[k],
        ),
    decreases s.len(),
{
    if s.len() > 0 && !TargetDocument::at_most(s.last(), x) {
        let front = crate::order::inserted::<TargetDocument<'_>>(s.drop_last(), x);
        if k < front.len() {
            lemma_inserted_has(s.drop_last(), x, k);
            if front[k] != x {
                let m = choose|m: int|
                    0 <= m < s.drop_last().len() && s.drop_last()[m] == front[k];
                assert(s[m] == front[k]);
            }
        } else {
            assert(s[s.len() - 1] == s.last());
        }
    } else if k < s.len() {
        assert(s[k] == s.push(x)[k]);
    }
}

proof fn lemma_sorted_has(s: Seq<TargetDocument<'_>>, k: int)
    requires
        0 <= k < sorted::<TargetDocument<'_>>(s).len(),
    ensures
        s.contains(sorted::<TargetDocument<'_>>(s)[k]),
    decreases s.len(),
{
    if s.len() > 0 {
        let front = sorted::<TargetDocument<'_>>(s.drop_last());
        lemma_inserted_has(front, s.last(), k);
        let found = sorted::<TargetDocument<'_>>(s)[k];
        if found == s.last() {
            assert(s[s.len() - 1] == found);
        } else {
            let m = choose|m: int| 0 <= m < front.len() && front[m] == found;
            lemma_sorted_has(s.drop_last(), m);
            let j = choose|j: int| 0 <= j < s.drop_last().len() && s.drop_last()[j] == found;
            assert(s[j] == found);
        }
    }
}

fn read_documents(analyzer: &Analyzer, documents: &Vec<TargetDocument<'_>>) -> (r: Vec<Parse>)
    ensures
        documents_read(analyzer, documents@, r@),
{
    let mut trees: Vec<Parse> = Vec::new();
    let mut i: usize = 0;
    while i < documents.len()
        invariant
            i <= documents.len(),
            trees@.len() == i,
            forall|k: int|
                0 <= k < i ==> (#[trigger] trees@[k]).wf() && tree_of(
                    analyzer,
                    documents@[k].text@,
                    &trees@[k],
                ),
        decreases documents.len() - i,
    {
        let tree = read_text(analyzer, documents[i].text);
        trees.push(tree);
        i += 1;
    }
    trees
}

/// Reads documents, checks them against the index, and gives the findings in
/// order.
pub fn check_documents(
    analyzer: &Analyzer,
    index: &WorkspaceIndex,
    documents: Vec<TargetDocument<'_>>,
) -> (r: Vec<OutputDiagnostic>)
    requires
        forall|i: int|
            0 <= i < documents@.len() ==> (#[trigger] documents@[i]).text@.len() < usize::MAX,
    ensures
        exists|trees: Seq<Parse>| #[trigger]
            documents_read(analyzer, sorted::<TargetDocument<'_>>(documents@), trees) && views(r@)
                == checked(analyzer, index, documents@, trees),
{
    let ghost given = documents@;
    assert(views(given) =~= given);
    let documents = sort(documents);
    let ghost placed = documents@;
    assert(views(placed) =~= placed);
    let trees = read_documents(analyzer, &documents);
    let ghost whole = findings_from(analyzer, index, placed, trees@, 0);
    let mut out: Vec<OutputDiagnostic> = Vec::new();
    assert(views(out@) + whole =~= whole);
    let mut i: usize = 0;
    while i < documents.len()
        invariant
            i <= documents.len(),
            documents@ == placed,
            placed == sorted::<TargetDocument<'_>>(given),
            forall|k: int|
                0 <= k < given.len() ==> (#[trigger] given[k]).text@.len() < usize::MAX,
            documents_read(analyzer, placed, trees@),
            views(out@) + findings_from(analyzer, index, placed, trees@, i as int) == whole,
        decreases documents.len() - i,
    {
        let ghost before = views(out@);
        proof {
            lemma_sorted_has(given, i as int);
            let k = choose|k: int| 0 <= k < given.len() && given[k] == placed[i as int];
            assert(given[k].text@.len() < usize::MAX);
            assert(trees@[i as int].wf());
        }
        push_findings(&mut out, analyzer, index, documents[i], &trees[i]);
        assert(views(out@) + findings_from(analyzer, index, placed, trees@, i + 1) =~= before
            + findings_from(analyzer, index, placed, trees@, i as int));
        i += 1;
    }
    assert(views(out@) + findings_from(analyzer, index, placed, trees@, i as int) =~= views(out@));
    assert(documents_read(analyzer, sorted::<TargetDocument<'_>>(given), trees@));
    sort(out)
}

/// Whether a check fails at that level.
pub open spec fn fails(findings: Seq<OutputView>, level: u8) -> bool {
    exists|i: int| 0 <= i < findings.len() && (#[trigger] findings[i]).severity.level() >= level
}

/// Decides whether any finding is grave enough for the check to fail.
pub fn check_fails(findings: &Vec<OutputDiagnostic>, level: u8) -> (r: bool)
    ensures
        r == fails(views(findings@), level),
{
    let ghost vs = views(findings@);
    let mut i: usize = 0;
    while i < findings.len()
        invariant
            i <= findings.len(),
            vs == views(findings@),
            forall|k: int| 0 <= k < i ==> (#[trigger] vs[k]).severity.level() < level,
        decreases findings.len() - i,
    {
        assert(vs[i as int] == findings@[i as int]@);
        if findings[i].severity.rank() >= level {
            return true;
        }
        i += 1;
    }
    false
}

/// A finding as a line for people.
pub open spec fn human(d: OutputView) -> Seq<char> {
    d.file + ":"@ + decimal(d.start.0 as nat) + ":"@ + decimal(d.start.1 as nat) + ": "@
        + d.severity.word() + "["@ + d.code + "]: "@ + d.message
}

/// Formats a finding for people.
pub fn human_line(d: &OutputDiagnostic) -> (r: String)
    ensures
        r@ == human(d@),
{
    let line = number(d.range.start.line);
    let column = number(d.range.start.column);
    let mut out = join5(d.file.as_str(), ":", line.as_str(), ":", column.as_str());
    out.append(": ");
    out.append(d.severity.as_str());
    out.append("[");
    out.append(d.code);
    out.append("]: ");
    out.append(d.message.as_str());
    out
}

/// How many findings, from `i` on, have that severity.
pub open spec fn count_of(findings: Seq<OutputView>, severity: OutputSeverity, i: int) -> nat
    decreases findings.len() - i,
{
    if i < 0 || i >= findings.len() {
        0
    } else {
        (if findings[i].severity == severity {
            1nat
        } else {
            0nat
        }) + count_of(findings, severity, i + 1)
    }
}

fn count(findings: &Vec<OutputDiagnostic>, severity: OutputSeverity) -> (r: usize)
    ensures
        r == count_of(views(findings@), severity, 0),
{
    let ghost vs = views(findings@);
    let mut n: usize = 0;
    let mut i: usize = 0;
    while i < findings.len()
        invariant
            i <= findings.len(),
            vs == views(findings@),
            n <= i,
            n + count_of(vs, severity, i as int) == count_of(vs, severity, 0),
        decreases findings.len() - i,
    {
        assert(vs[i as int] == findings@[i as int]@);
        if findings[i].severity == severity {
            n += 1;
        }
        i += 1;
    }
    n
}

/// The closing line of a check.
pub fn summary_line(findings: &Vec<OutputDiagnostic>) -> (r: String)
    ensures
        r@ == decimal(count_of(views(findings@), OutputSeverity::Error, 0)) + " error(s), "@
            + decimal(count_of(views(findings@), OutputSeverity::Warning, 0)) + " warning(s), "@
            + decimal(count_of(views(findings@), OutputSeverity::Hint, 0)) + " hint(s)"@,
{
    let errors = number(count(findings, OutputSeverity::Error));
    let warnings = number(count(findings, OutputSeverity::Warning));
    let hints = number(count(findings, OutputSeverity::Hint));
    let mut out = join5(
        errors.as_str(),
        " error(s), ",
        warnings.as_str(),
        " warning(s), ",
        hints.as_str(),
    );
    out.append(" hint(s)");
    out
}

} // verus!
