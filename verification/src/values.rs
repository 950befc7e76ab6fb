//! Diagnostics for field values: each value type's rule for its tokens.

use vstd::prelude::*;

use crate::analyzer::Analyzer;
use crate::index::WorkspaceIndex;
use crate::numbers::{
    int_literal, is_i64, is_not_positive, is_real, is_u64, not_positive, parse_i64, parses_as_real,
    parses_as_u64, signed_decimal, signed_text,
};
use crate::schema::{RefKind, ValueMember, ValueType};
use crate::syntax::{Parse, Span, SyntaxToken};
use crate::text::{
    decimal, eq_ci, join2, join3, join5, lower, number, same, same_ci, split_at_first, split_once,
    strip_prefix, strip_suffix, texts, to_lower, without_prefix, without_suffix,
};

verus! {

#[derive(Debug, Clone, Copy, PartialEq, Eq, Structural)]
pub enum Severity {
    Error,
    Warning,
    Hint,
}

/// A finding about a document.
#[derive(Debug, PartialEq, Eq)]
pub struct Diagnostic {
    pub span: Span,
    pub severity: Severity,
    /// Stable machine code (e.g. `unknown-field`) for client filtering.
    pub code: &'static str,
    pub message: String,
}

/// The model of a [`Diagnostic`].
pub struct DiagnosticView {
    pub span: Span,
    pub severity: Severity,
    pub code: Seq<char>,
    pub message: Seq<char>,
}

impl View for Diagnostic {
    type V = DiagnosticView;

    open spec fn view(&self) -> DiagnosticView {
        DiagnosticView {
            span: self.span,
            severity: self.severity,
            code: self.code@,
            message: self.message@,
        }
    }
}

/// The models of a list of diagnostics.
pub open spec fn diags(list: Seq<Diagnostic>) -> Seq<DiagnosticView> {
    list.map_values(|d: Diagnostic| d@)
}

/// One diagnostic.
pub open spec fn finding(
    span: Span,
    severity: Severity,
    code: Seq<char>,
    message: Seq<char>,
) -> Seq<DiagnosticView> {
    seq![DiagnosticView { span, severity, code, message }]
}

pub open spec fn error_at(span: Span, code: Seq<char>, message: Seq<char>) -> Seq<DiagnosticView> {
    finding(span, Severity::Error, code, message)
}

pub open spec fn warning_at(span: Span, code: Seq<char>, message: Seq<char>) -> Seq<
    DiagnosticView,
> {
    finding(span, Severity::Warning, code, message)
}

pub open spec fn hint_at(span: Span, code: Seq<char>, message: Seq<char>) -> Seq<DiagnosticView> {
    finding(span, Severity::Hint, code, message)
}

pub open spec fn nothing() -> Seq<DiagnosticView> {
    Seq::empty()
}

/// Appends a diagnostic.
pub fn report(
    out: &mut Vec<Diagnostic>,
    span: Span,
    severity: Severity,
    code: &'static str,
    message: String,
)
    ensures
        diags(final(out)@) == diags(old(out)@) + finding(span, severity, code@, message@),
{
    let ghost before = diags(out@);
    out.push(Diagnostic { span, severity, code, message });
    assert(diags(out@) =~= before + finding(span, severity, code@, message@));
}

/// Appends an error.
pub fn error(out: &mut Vec<Diagnostic>, span: Span, code: &'static str, message: String)
    ensures
        diags(final(out)@) == diags(old(out)@) + error_at(span, code@, message@),
{
    report(out, span, Severity::Error, code, message);
}

/// Appends a warning.
pub fn warning(out: &mut Vec<Diagnostic>, span: Span, code: &'static str, message: String)
    ensures
        diags(final(out)@) == diags(old(out)@) + warning_at(span, code@, message@),
{
    report(out, span, Severity::Warning, code, message);
}

/// Appends a hint.
pub fn hint(out: &mut Vec<Diagnostic>, span: Span, code: &'static str, message: String)
    ensures
        diags(final(out)@) == diags(old(out)@) + hint_at(span, code@, message@),
{
    report(out, span, Severity::Hint, code, message);
}

/// What every check of a document reads.
#[derive(Clone, Copy)]
pub struct Ctx<'a> {
    pub analyzer: &'a Analyzer,
    pub parse: &'a Parse,
    /// The workspace index, absent for single-file analysis.
    pub index: Option<&'a WorkspaceIndex>,
    /// The document's name as keyed in the index.
    pub file: Option<&'a str>,
}

/// A text without one pair of surrounding quotes. A trailing quote goes only
/// with a leading one.
pub open spec fn stripped(s: Seq<char>) -> Seq<char> {
    match strip_prefix(s, "\""@) {
        Some(rest) => match strip_suffix(rest, "\""@) {
            Some(inner) => inner,
            None => rest,
        },
        None => s,
    }
}

/// Strip surrounding double quotes from a token's text, if present.
pub fn unquote(s: &str) -> (r: &str)
    ensures
        r@ == stripped(s@),
{
    match without_prefix(s, "\"") {
        Some(rest) => match without_suffix(rest, "\"") {
            Some(inner) => inner,
            None => rest,
        },
        None => s,
    }
}

/// The stripped text of the first token.
pub open spec fn first_stripped(tokens: Seq<SyntaxToken>) -> Option<Seq<char>> {
    if tokens.len() > 0 {
        Some(stripped(tokens[0].text@))
    } else {
        None
    }
}

/// The sorts of numbers that fields take.
#[derive(Clone, Copy, PartialEq, Eq, Structural, Debug)]
pub enum NumKind {
    Int,
    UInt,
    Real,
}

/// Whether a literal is a number of that sort.
pub open spec fn is_number(s: Seq<char>, kind: NumKind) -> bool {
    match kind {
        NumKind::Int => is_i64(s),
        NumKind::UInt => is_u64(s),
        NumKind::Real => is_real(s),
    }
}

fn number_ok(text: &str, kind: NumKind) -> (r: bool)
    ensures
        r == is_number(text@, kind),
{
    match kind {
        NumKind::Int => parse_i64(text).is_some(),
        NumKind::UInt => parses_as_u64(text),
        NumKind::Real => parses_as_real(text),
    }
}

pub open spec fn number_word(kind: NumKind) -> Seq<char> {
    match kind {
        NumKind::Int => "an integer"@,
        NumKind::UInt => "a non-negative integer"@,
        NumKind::Real => "a number"@,
    }
}

pub open spec fn number_diags(tok: SyntaxToken, kind: NumKind) -> Seq<DiagnosticView> {
    if is_number(tok.text@, kind) {
        nothing()
    } else {
        error_at(
            tok.span,
            "bad-number"@,
            "expected "@ + number_word(kind) + ", found `"@ + tok.text@ + "`"@,
        )
    }
}

/// A number token.
pub fn check_number(tok: &SyntaxToken, kind: NumKind, out: &mut Vec<Diagnostic>)
    ensures
        diags(final(out)@) == diags(old(out)@) + number_diags(*tok, kind),
{
    let text = tok.text.as_str();
    if !number_ok(text, kind) {
        let what = match kind {
            NumKind::Int => "an integer",
            NumKind::UInt => "a non-negative integer",
            NumKind::Real => "a number",
        };
        error(out, tok.span, "bad-number", join5("expected ", what, ", found `", text, "`"));
    }
}

/// Whether a member of that name is in the list, up to ASCII case.
pub open spec fn member_known(members: Seq<ValueMember>, name: Seq<char>) -> bool {
    exists|i: int| 0 <= i < members.len() && same_ci((#[trigger] members[i]).name@, name)
}

fn knows_member(members: &Vec<ValueMember>, name: &str) -> (r: bool)
    ensures
        r == member_known(members@, name@),
{
    let mut i: usize = 0;
    while i < members.len()
        invariant
            i <= members.len(),
            forall|k: int| 0 <= k < i ==> !same_ci((#[trigger] members@[k]).name@, name@),
        decreases members.len() - i,
    {
        if eq_ci(members[i].name.as_str(), name) {
            return true;
        }
        i += 1;
    }
    false
}

/// Whether a value set rejects a name: it exists, has members, and none is it.
pub open spec fn set_rejects(analyzer: &Analyzer, value_set: Seq<char>, name: Seq<char>) -> bool {
    match analyzer.value_set_of(value_set) {
        Some(set) => set.members@.len() > 0 && !member_known(set.members@, name),
        None => false,
    }
}

fn rejects(analyzer: &Analyzer, value_set: &str, name: &str) -> (r: bool)
    ensures
        r == set_rejects(analyzer, value_set@, name@),
{
    match analyzer.value_set(value_set) {
        Some(set) => set.members.len() > 0 && !knows_member(&set.members, name),
        None => false,
    }
}

pub open spec fn enum_diags(
    analyzer: &Analyzer,
    value_set: Seq<char>,
    span: Span,
    name: Seq<char>,
) -> Seq<DiagnosticView> {
    if set_rejects(analyzer, value_set, name) {
        error_at(
            span,
            "bad-enum"@,
            "`"@ + name + "` is not a valid value (expected one of "@ + value_set + ")"@,
        )
    } else {
        nothing()
    }
}

/// A name that must be a member of an enum set.
pub fn check_enum_member_name(
    analyzer: &Analyzer,
    value_set: &str,
    span: Span,
    name: &str,
    out: &mut Vec<Diagnostic>,
)
    ensures
        diags(final(out)@) == diags(old(out)@) + enum_diags(analyzer, value_set@, span, name@),
{
    if rejects(analyzer, value_set, name) {
        error(
            out,
            span,
            "bad-enum",
            join5("`", name, "` is not a valid value (expected one of ", value_set, ")"),
        );
    }
}

/// A flag token without its leading `+` and `-` signs.
pub open spec fn flag_name(s: Seq<char>) -> Seq<char>
    decreases s.len(),
{
    if s.len() > 0 && (s[0] == '+' || s[0] == '-') {
        flag_name(s.skip(1))
    } else {
        s
    }
}

fn flag_of(text: &str) -> (r: &str)
    ensures
        r@ == flag_name(text@),
{
    let chars = crate::text::chars_of(text);
    let mut i: usize = 0;
    assert(text@.skip(0) =~= text@);
    while i < chars.len() && (chars[i] == '+' || chars[i] == '-')
        invariant
            i <= chars.len(),
            chars@ == text@,
            flag_name(text@) == flag_name(text@.skip(i as int)),
        decreases chars.len() - i,
    {
        assert(text@.skip(i as int).skip(1) =~= text@.skip(i + 1));
        i += 1;
    }
    assert(text@.skip(i as int) =~= text@.subrange(i as int, text@.len() as int));
    vstd::string::StrSliceExecFns::substring_char(text, i, chars.len())
}

pub open spec fn flag_diags(
    analyzer: &Analyzer,
    value_set: Seq<char>,
    span: Span,
    text: Seq<char>,
) -> Seq<DiagnosticView> {
    let raw = flag_name(text);
    if same_ci(raw, "NONE"@) || same_ci(raw, "ALL"@) || !set_rejects(analyzer, value_set, raw) {
        nothing()
    } else {
        error_at(
            span,
            "bad-flag"@,
            "`"@ + raw + "` is not a valid "@ + value_set + " flag"@,
        )
    }
}

/// A flag with optional signs that must be in a set, `NONE` or `ALL`.
pub fn check_flag(
    analyzer: &Analyzer,
    value_set: &str,
    span: Span,
    text: &str,
    out: &mut Vec<Diagnostic>,
)
    ensures
        diags(final(out)@) == diags(old(out)@) + flag_diags(analyzer, value_set@, span, text@),
{
    let raw = flag_of(text);
    if eq_ci(raw, "NONE") || eq_ci(raw, "ALL") {
        return;
    }
    if rejects(analyzer, value_set, raw) {
        error(
            out,
            span,
            "bad-flag",
            join5("`", raw, "` is not a valid ", value_set, " flag"),
        );
    }
}

pub open spec fn reference_diags(
    ctx: Ctx<'_>,
    kind: RefKind,
    span: Span,
    name: Seq<char>,
) -> Seq<DiagnosticView> {
    match ctx.index {
        Some(index) => if crate::extract::navigable(ctx.analyzer, kind, name)
            && !crate::index::def_known(index.def_rows(), kind, lower(name)) {
            warning_at(
                span,
                "unresolved-reference"@,
                "`"@ + name + "` is not defined anywhere in the workspace"@,
            )
        } else {
            nothing()
        },
        None => nothing(),
    }
}

/// A name that must be defined in the workspace. `None` is the null
/// reference, `NoSound` the audio one, and the engine makes some names itself.
pub fn check_reference_name(
    ctx: Ctx<'_>,
    kind: RefKind,
    span: Span,
    name: &str,
    out: &mut Vec<Diagnostic>,
)
    ensures
        diags(final(out)@) == diags(old(out)@) + reference_diags(ctx, kind, span, name@),
{
    match ctx.index {
        Some(index) => {
            if name.is_empty() || eq_ci(name, "None") || (kind == RefKind::AudioEvent && eq_ci(
                name,
                "NoSound",
            )) || ctx.analyzer.is_builtin(kind, name) {
                return;
            }
            if !index.is_defined(kind, name) {
                warning(
                    out,
                    span,
                    "unresolved-reference",
                    join3("`", name, "` is not defined anywhere in the workspace"),
                );
            }
        },
        None => {},
    }
}

pub open spec fn yes_or_no(s: Seq<char>) -> bool {
    lower(s) == "yes"@ || lower(s) == "no"@
}

fn is_yes_or_no(text: &str) -> (r: bool)
    ensures
        r == yes_or_no(text@),
{
    let v = to_lower(text);
    same(v.as_str(), "yes") || same(v.as_str(), "no")
}

pub open spec fn bool_diags(span: Span, value: Seq<char>, shown: Seq<char>) -> Seq<DiagnosticView> {
    if yes_or_no(value) {
        nothing()
    } else {
        error_at(span, "bad-bool"@, "expected `Yes` or `No`, found `"@ + shown + "`"@)
    }
}

fn check_bool(span: Span, value: &str, shown: &str, out: &mut Vec<Diagnostic>)
    ensures
        diags(final(out)@) == diags(old(out)@) + bool_diags(span, value@, shown@),
{
    if !is_yes_or_no(value) {
        error(out, span, "bad-bool", join3("expected `Yes` or `No`, found `", shown, "`"));
    }
}

/// The value behind `Loc:` must be `X:<n>`.
pub open spec fn loc_diags(span: Span, value: Seq<char>) -> Seq<DiagnosticView> {
    let shape = error_at(
        span,
        "bad-prefixed"@,
        "expected `X:<n>` after `Loc:`, found `"@ + value + "`"@,
    );
    match split_once(value, ':') {
        Some((axis, n)) => if !same_ci(axis, "X"@) {
            shape
        } else if is_real(n) {
            nothing()
        } else {
            error_at(
                span,
                "bad-number"@,
                "expected a number for `Loc:X:`, found `"@ + n + "`"@,
            )
        },
        None => shape,
    }
}

/// The value behind `Loc:`.
pub fn check_loc_value(span: Span, value: &str, out: &mut Vec<Diagnostic>)
    ensures
        diags(final(out)@) == diags(old(out)@) + loc_diags(span, value@),
{
    match split_at_first(value, ':') {
        Some((axis, n)) => {
            if !eq_ci(axis, "X") {
                error(
                    out,
                    span,
                    "bad-prefixed",
                    join3("expected `X:<n>` after `Loc:`, found `", value, "`"),
                );
                return;
            }
            if !parses_as_real(n) {
                error(
                    out,
                    span,
                    "bad-number",
                    join3("expected a number for `Loc:X:`, found `", n, "`"),
                );
            }
        },
        None => {
            error(
                out,
                span,
                "bad-prefixed",
                join3("expected `X:<n>` after `Loc:`, found `", value, "`"),
            );
        },
    }
}

pub open spec fn prefixed_number_diags(
    span: Span,
    prefix: Seq<char>,
    value: Seq<char>,
    kind: NumKind,
) -> Seq<DiagnosticView> {
    if is_number(value, kind) {
        nothing()
    } else {
        error_at(
            span,
            "bad-number"@,
            "expected a number for `"@ + prefix + ":`, found `"@ + value + "`"@,
        )
    }
}

fn check_prefixed_number(
    span: Span,
    prefix: &str,
    value: &str,
    kind: NumKind,
    out: &mut Vec<Diagnostic>,
)
    ensures
        diags(final(out)@) == diags(old(out)@) + prefixed_number_diags(span, prefix@, value@, kind),
{
    if !number_ok(value, kind) {
        error(
            out,
            span,
            "bad-number",
            join5("expected a number for `", prefix, ":`, found `", value, "`"),
        );
    }
}

/// The rule for the value behind a prefix in the same token.
pub open spec fn prefixed_value_diags(
    ctx: Ctx<'_>,
    span: Span,
    prefix: Seq<char>,
    ty: ValueType,
    value: Seq<char>,
) -> Seq<DiagnosticView> {
    match ty {
        ValueType::Bool => bool_diags(span, value, value),
        ValueType::Int => prefixed_number_diags(span, prefix, value, NumKind::Int),
        ValueType::UInt => prefixed_number_diags(span, prefix, value, NumKind::UInt),
        ValueType::Real => prefixed_number_diags(span, prefix, value, NumKind::Real),
        ValueType::PositiveReal => prefixed_number_diags(span, prefix, value, NumKind::Real),
        ValueType::AngleReal => prefixed_number_diags(span, prefix, value, NumKind::Real),
        ValueType::Velocity => prefixed_number_diags(span, prefix, value, NumKind::Real),
        ValueType::Acceleration => prefixed_number_diags(span, prefix, value, NumKind::Real),
        ValueType::Duration => prefixed_number_diags(span, prefix, value, NumKind::Real),
        ValueType::Reference { ref_kind } => reference_diags(ctx, ref_kind, span, value),
        ValueType::ReferenceList { ref_kind } => reference_diags(ctx, ref_kind, span, value),
        ValueType::Enum { value_set } => enum_diags(ctx.analyzer, value_set@, span, value),
        ValueType::BitFlags { value_set } => flag_diags(ctx.analyzer, value_set@, span, value),
        _ => nothing(),
    }
}

fn check_prefixed_value(
    ctx: Ctx<'_>,
    span: Span,
    prefix: &str,
    ty: &ValueType,
    value: &str,
    out: &mut Vec<Diagnostic>,
)
    ensures
        diags(final(out)@) == diags(old(out)@) + prefixed_value_diags(
            ctx,
            span,
            prefix@,
            *ty,
            value@,
        ),
{
    match ty {
        ValueType::Bool => check_bool(span, value, value, out),
        ValueType::Int => check_prefixed_number(span, prefix, value, NumKind::Int, out),
        ValueType::UInt => check_prefixed_number(span, prefix, value, NumKind::UInt, out),
        ValueType::Real => check_prefixed_number(span, prefix, value, NumKind::Real, out),
        ValueType::PositiveReal => check_prefixed_number(span, prefix, value, NumKind::Real, out),
        ValueType::AngleReal => check_prefixed_number(span, prefix, value, NumKind::Real, out),
        ValueType::Velocity => check_prefixed_number(span, prefix, value, NumKind::Real, out),
        ValueType::Acceleration => check_prefixed_number(span, prefix, value, NumKind::Real, out),
        ValueType::Duration => check_prefixed_number(span, prefix, value, NumKind::Real, out),
        ValueType::Reference { ref_kind } => check_reference_name(ctx, *ref_kind, span, value, out),
        ValueType::ReferenceList { ref_kind } => check_reference_name(
            ctx,
            *ref_kind,
            span,
            value,
            out,
        ),
        ValueType::Enum { value_set } => check_enum_member_name(
            ctx.analyzer,
            value_set.as_str(),
            span,
            value,
            out,
        ),
        ValueType::BitFlags { value_set } => check_flag(
            ctx.analyzer,
            value_set.as_str(),
            span,
            value,
            out,
        ),
        _ => {},
    }
}

/// A token `Prefix:value`.
pub open spec fn prefixed_diags(
    ctx: Ctx<'_>,
    tok: SyntaxToken,
    prefix: Seq<char>,
    ty: ValueType,
) -> Seq<DiagnosticView> {
    let text = stripped(tok.text@);
    let shape = error_at(
        tok.span,
        "bad-prefixed"@,
        "expected `"@ + prefix + ":...`, found `"@ + text + "`"@,
    );
    match split_once(text, ':') {
        Some((actual, value)) => if !same_ci(actual, prefix) {
            shape
        } else if same_ci(prefix, "Loc"@) {
            loc_diags(tok.span, value)
        } else {
            prefixed_value_diags(ctx, tok.span, prefix, ty, value)
        },
        None => shape,
    }
}

/// A token `Prefix:value`.
pub fn check_prefixed_token(
    ctx: Ctx<'_>,
    tok: &SyntaxToken,
    prefix: &str,
    ty: &ValueType,
    out: &mut Vec<Diagnostic>,
)
    ensures
        diags(final(out)@) == diags(old(out)@) + prefixed_diags(ctx, *tok, prefix@, *ty),
{
    let text = unquote(tok.text.as_str());
    match split_at_first(text, ':') {
        Some((actual, value)) => {
            if !eq_ci(actual, prefix) {
                error(
                    out,
                    tok.span,
                    "bad-prefixed",
                    join5("expected `", prefix, ":...`, found `", text, "`"),
                );
                return;
            }
            if eq_ci(prefix, "Loc") {
                check_loc_value(tok.span, value, out);
                return;
            }
            check_prefixed_value(ctx, tok.span, prefix, ty, value, out);
        },
        None => {
            error(
                out,
                tok.span,
                "bad-prefixed",
                join5("expected `", prefix, ":...`, found `", text, "`"),
            );
        },
    }
}

/// A percentage: a real before `%`, or, where allowed, a bare real.
pub open spec fn percent_ok(s: Seq<char>, bare: bool) -> bool {
    match strip_suffix(s, "%"@) {
        Some(n) => is_real(n),
        None => bare && is_real(s),
    }
}

fn is_percent(text: &str, bare: bool) -> (r: bool)
    ensures
        r == percent_ok(text@, bare),
{
    match without_suffix(text, "%") {
        Some(n) => parses_as_real(n),
        None => bare && parses_as_real(text),
    }
}

/// The rule for one token of a single-token type.
pub open spec fn token_diags(ctx: Ctx<'_>, tok: SyntaxToken, ty: ValueType) -> Seq<
    DiagnosticView,
> {
    match ty {
        ValueType::Bool => bool_diags(tok.span, stripped(tok.text@), tok.text@),
        ValueType::Int => number_diags(tok, NumKind::Int),
        ValueType::UInt => number_diags(tok, NumKind::UInt),
        ValueType::Real => number_diags(tok, NumKind::Real),
        ValueType::AngleReal => number_diags(tok, NumKind::Real),
        ValueType::Velocity => number_diags(tok, NumKind::Real),
        ValueType::Acceleration => number_diags(tok, NumKind::Real),
        ValueType::Duration => number_diags(tok, NumKind::Real),
        ValueType::PositiveReal => number_diags(tok, NumKind::Real) + if not_positive(tok.text@) {
            warning_at(
                tok.span,
                "non-positive"@,
                "`"@ + tok.text@ + "` should be greater than 0"@,
            )
        } else {
            nothing()
        },
        ValueType::Percent => if percent_ok(tok.text@, ctx.analyzer.allow_bare_percentages) {
            nothing()
        } else {
            error_at(
                tok.span,
                "bad-percent"@,
                "expected a percentage like `100%`, found `"@ + tok.text@ + "`"@,
            )
        },
        ValueType::Enum { value_set } => enum_diags(
            ctx.analyzer,
            value_set@,
            tok.span,
            tok.text@,
        ),
        ValueType::BitFlags { value_set } => flag_diags(
            ctx.analyzer,
            value_set@,
            tok.span,
            tok.text@,
        ),
        ValueType::Reference { ref_kind } => reference_diags(
            ctx,
            ref_kind,
            tok.span,
            stripped(tok.text@),
        ),
        ValueType::ReferenceList { ref_kind } => reference_diags(
            ctx,
            ref_kind,
            tok.span,
            stripped(tok.text@),
        ),
        ValueType::Prefixed { prefix, value_type } => prefixed_diags(
            ctx,
            tok,
            prefix@,
            *value_type,
        ),
        _ => nothing(),
    }
}

/// Validate one value token against a single-token type.
pub fn check_token(ctx: Ctx<'_>, tok: &SyntaxToken, ty: &ValueType, out: &mut Vec<Diagnostic>)
    ensures
        diags(final(out)@) == diags(old(out)@) + token_diags(ctx, *tok, *ty),
{
    let text = tok.text.as_str();
    match ty {
        ValueType::Bool => check_bool(tok.span, unquote(text), text, out),
        ValueType::Int => check_number(tok, NumKind::Int, out),
        ValueType::UInt => check_number(tok, NumKind::UInt, out),
        ValueType::Real => check_number(tok, NumKind::Real, out),
        ValueType::AngleReal => check_number(tok, NumKind::Real, out),
        ValueType::Velocity => check_number(tok, NumKind::Real, out),
        ValueType::Acceleration => check_number(tok, NumKind::Real, out),
        ValueType::Duration => check_number(tok, NumKind::Real, out),
        ValueType::PositiveReal => {
            check_number(tok, NumKind::Real, out);
            if is_not_positive(text) {
                warning(
                    out,
                    tok.span,
                    "non-positive",
                    join3("`", text, "` should be greater than 0"),
                );
            }
        },
        ValueType::Percent => {
            if !is_percent(text, ctx.analyzer.allow_bare_percentages) {
                error(
                    out,
                    tok.span,
                    "bad-percent",
                    join3("expected a percentage like `100%`, found `", text, "`"),
                );
            }
        },
        ValueType::Enum { value_set } => check_enum_member_name(
            ctx.analyzer,
            value_set.as_str(),
            tok.span,
            text,
            out,
        ),
        ValueType::BitFlags { value_set } => check_flag(
            ctx.analyzer,
            value_set.as_str(),
            tok.span,
            text,
            out,
        ),
        ValueType::Reference { ref_kind } => check_reference_name(
            ctx,
            *ref_kind,
            tok.span,
            unquote(text),
            out,
        ),
        ValueType::ReferenceList { ref_kind } => check_reference_name(
            ctx,
            *ref_kind,
            tok.span,
            unquote(text),
            out,
        ),
        ValueType::Prefixed { prefix, value_type } => check_prefixed_token(
            ctx,
            tok,
            prefix.as_str(),
            value_type,
            out,
        ),
        _ => {},
    }
}

/// Whether tokens `i` and `i + 1` are a split `Prefix: value` of this type.
pub open spec fn splits_at(tokens: Seq<SyntaxToken>, i: int, ty: ValueType) -> bool {
    i + 1 < tokens.len() && ty.split_prefix(stripped(tokens[i].text@)) is Some
}

pub open spec fn loc_prefixed(ty: ValueType) -> bool {
    match ty.leading_prefix() {
        Some(prefix) => same_ci(prefix, "Loc"@),
        None => false,
    }
}

/// How many tokens one logical value takes.
pub open spec fn value_width(tokens: Seq<SyntaxToken>, i: int, ty: ValueType) -> int {
    if splits_at(tokens, i, ty) {
        2
    } else {
        1
    }
}

/// One logical value that starts at token `i`; a space may follow the colon
/// of a prefix.
pub open spec fn logical_diags(
    ctx: Ctx<'_>,
    tokens: Seq<SyntaxToken>,
    i: int,
    ty: ValueType,
) -> Seq<DiagnosticView> {
    if splits_at(tokens, i, ty) {
        if loc_prefixed(ty) {
            loc_diags(tokens[i + 1].span, stripped(tokens[i + 1].text@))
        } else {
            token_diags(ctx, tokens[i + 1], ty.split_prefix(stripped(tokens[i].text@))->Some_0)
        }
    } else {
        token_diags(ctx, tokens[i], ty)
    }
}

/// Validate one logical value, and say how many tokens it takes.
pub fn check_value_tokens(
    ctx: Ctx<'_>,
    tokens: &Vec<SyntaxToken>,
    i: usize,
    ty: &ValueType,
    out: &mut Vec<Diagnostic>,
) -> (width: usize)
    requires
        i < tokens.len(),
    ensures
        width == value_width(tokens@, i as int, *ty),
        1 <= width <= 2,
        i + width <= tokens.len(),
        diags(final(out)@) == diags(old(out)@) + logical_diags(ctx, tokens@, i as int, *ty),
{
    if i + 1 < tokens.len() {
        if let Some(value_type) = ty.split_prefix_value_type(unquote(tokens[i].text.as_str())) {
            let value = &tokens[i + 1];
            let is_loc = match ty.first_prefix() {
                Some(prefix) => eq_ci(prefix, "Loc"),
                None => false,
            };
            if is_loc {
                check_loc_value(value.span, unquote(value.text.as_str()), out);
            } else {
                check_token(ctx, value, value_type, out);
            }
            return 2;
        }
    }
    check_token(ctx, &tokens[i], ty, out);
    1
}

/// A piece of a token between colons, with the token's range.
pub struct Piece {
    pub text: Seq<char>,
    pub span: Span,
}

/// The non-empty texts between the colons of `s`.
pub open spec fn pieces_of(s: Seq<char>, span: Span) -> Seq<Piece>
    decreases s.len(),
{
    let at = crate::text::find(s, ':', 0);
    let head = if at > 0 {
        seq![Piece { text: s.subrange(0, at), span }]
    } else {
        Seq::empty()
    };
    if 0 <= at < s.len() {
        head + pieces_of(s.subrange(at + 1, s.len() as int), span)
    } else {
        head
    }
}

/// The pieces of the tokens `k..n`.
pub open spec fn token_pieces(tokens: Seq<SyntaxToken>, k: int, n: int) -> Seq<Piece>
    decreases n - k,
{
    if k < 0 || k >= n {
        Seq::empty()
    } else {
        pieces_of(tokens[k].text@, tokens[k].span) + token_pieces(tokens, k + 1, n)
    }
}

pub open spec fn piece_views(list: Seq<(&str, Span)>) -> Seq<Piece> {
    list.map_values(|p: (&str, Span)| Piece { text: p.0@, span: p.1 })
}

fn split_pieces<'a>(text: &'a str, span: Span, out: &mut Vec<(&'a str, Span)>)
    ensures
        piece_views(final(out)@) == piece_views(old(out)@) + pieces_of(text@, span),
    decreases text@.len(),
{
    let ghost before = piece_views(out@);
    let chars = crate::text::chars_of(text);
    let at: usize = crate::text::find_char(&chars, ':', 0);
    if at > 0 {
        let head = vstd::string::StrSliceExecFns::substring_char(text, 0, at);
        out.push((head, span));
        assert(piece_views(out@) =~= before.push(Piece { text: head@, span }));
    }
    if at < chars.len() {
        let rest = vstd::string::StrSliceExecFns::substring_char(text, at + 1, chars.len());
        let ghost middle = piece_views(out@);
        split_pieces(rest, span, out);
        assert(piece_views(out@) =~= before + pieces_of(text@, span));
    } else {
        assert(piece_views(out@) =~= before + pieces_of(text@, span));
    }
}

/// The rule for tagged axes.
pub struct AxisRule<'a> {
    pub axes: &'a [&'static str],
    /// An axis that may follow.
    pub optional: Option<&'static str>,
    /// Integers from 0 to 255 rather than reals.
    pub color: bool,
}

pub open spec fn axis_code(color: bool) -> Seq<char> {
    if color {
        "bad-color"@
    } else {
        "bad-coord"@
    }
}

/// The expected form of the first `n` axes.
pub open spec fn axis_form(axes: Seq<Seq<char>>, n: int) -> Seq<char>
    decreases n,
{
    if n <= 0 {
        Seq::empty()
    } else if n == 1 {
        axes[0] + ":<n>"@
    } else {
        axis_form(axes, n - 1) + " "@ + axes[n - 1] + ":<n>"@
    }
}

fn form_of(axes: &[&'static str], n: usize) -> (r: String)
    requires
        n <= axes.len(),
    ensures
        r@ == axis_form(crate::text::slices(axes@), n as int),
    decreases n,
{
    if n == 0 {
        let out = String::new();
        assert(out@ =~= Seq::<char>::empty());
        out
    } else if n == 1 {
        join2(axes[0], ":<n>")
    } else {
        let front = form_of(axes, n - 1);
        join2(join3(front.as_str(), " ", axes[n - 1]).as_str(), ":<n>")
    }
}

/// The rule for the value of an axis.
pub open spec fn axis_value_diags(axis: Seq<char>, value: Piece, color: bool) -> Seq<
    DiagnosticView,
> {
    if color {
        if !is_i64(value.text) {
            error_at(
                value.span,
                axis_code(color),
                "expected an integer for `"@ + axis + ":`, found `"@ + value.text + "`"@,
            )
        } else {
            let n = int_literal(value.text, true)->Some_0;
            if 0 <= n <= 255 {
                nothing()
            } else {
                error_at(
                    value.span,
                    axis_code(color),
                    "`"@ + axis + ":"@ + signed_decimal(n) + "` is out of range (0-255)"@,
                )
            }
        }
    } else if is_real(value.text) {
        nothing()
    } else {
        error_at(
            value.span,
            axis_code(color),
            "expected a number for `"@ + axis + ":`, found `"@ + value.text + "`"@,
        )
    }
}

/// What one axis at piece `i` finds, and whether the next may follow.
pub open spec fn axis_step(
    parts: Seq<Piece>,
    i: int,
    axis: Seq<char>,
    required: bool,
    color: bool,
    key: Option<SyntaxToken>,
    form: Seq<char>,
) -> (Seq<DiagnosticView>, bool) {
    if i >= parts.len() {
        (
            match key {
                Some(k) => if required {
                    error_at(
                        k.span,
                        axis_code(color),
                        "`"@ + k.text@ + "` expects `"@ + form + "`"@,
                    )
                } else {
                    nothing()
                },
                None => nothing(),
            },
            false,
        )
    } else if !same_ci(parts[i].text, axis) {
        (
            if required {
                error_at(
                    parts[i].span,
                    axis_code(color),
                    "expected `"@ + axis + ":`, found `"@ + parts[i].text + "` (format: `"@ + form
                        + "`)"@,
                )
            } else {
                nothing()
            },
            false,
        )
    } else if i + 1 >= parts.len() {
        (
            error_at(
                parts[i].span,
                axis_code(color),
                "`"@ + axis + ":` is missing its value"@,
            ),
            false,
        )
    } else {
        (axis_value_diags(axis, parts[i + 1], color), true)
    }
}

/// The required axes from `k` on, then the optional one.
pub open spec fn axes_from(
    parts: Seq<Piece>,
    axes: Seq<Seq<char>>,
    optional: Option<Seq<char>>,
    k: int,
    color: bool,
    key: Option<SyntaxToken>,
) -> Seq<DiagnosticView>
    decreases axes.len() - k,
{
    let form = axis_form(axes, axes.len() as int);
    if k < 0 || k >= axes.len() {
        match optional {
            Some(axis) => axis_step(parts, 2 * k, axis, false, color, key, form).0,
            None => nothing(),
        }
    } else {
        let step = axis_step(parts, 2 * k, axes[k], true, color, key, form);
        if step.1 {
            step.0 + axes_from(parts, axes, optional, k + 1, color, key)
        } else {
            step.0
        }
    }
}

/// A tagged-axis value (`R:255 G:0 B:0`): tags in order, in any case, with
/// colons as separators.
pub open spec fn axes_diags(
    key: Option<SyntaxToken>,
    tokens: Seq<SyntaxToken>,
    n: int,
    axes: Seq<Seq<char>>,
    optional: Option<Seq<char>>,
    color: bool,
) -> Seq<DiagnosticView> {
    axes_from(token_pieces(tokens, 0, n), axes, optional, 0, color, key)
}

fn check_axis(
    parts: &Vec<(&str, Span)>,
    i: usize,
    axis: &str,
    required: bool,
    color: bool,
    key: &Option<SyntaxToken>,
    form: &str,
    out: &mut Vec<Diagnostic>,
) -> (more: bool)
    ensures
        more == axis_step(
            piece_views(parts@),
            i as int,
            axis@,
            required,
            color,
            *key,
            form@,
        ).1,
        diags(final(out)@) == diags(old(out)@) + axis_step(
            piece_views(parts@),
            i as int,
            axis@,
            required,
            color,
            *key,
            form@,
        ).0,
        more ==> i + 1 < parts.len(),
{
    let code: &'static str = if color {
        "bad-color"
    } else {
        "bad-coord"
    };
    if i >= parts.len() {
        if required {
            if let Some(k) = key {
                error(out, k.span, code, join5("`", k.text.as_str(), "` expects `", form, "`"));
            }
        }
        return false;
    }
    let (tag, tag_span) = parts[i];
    assert(piece_views(parts@)[i as int] == (Piece { text: tag@, span: tag_span }));
    if !eq_ci(tag, axis) {
        if required {
            let front = join5("expected `", axis, ":`, found `", tag, "` (format: `");
            error(out, tag_span, code, join3(front.as_str(), form, "`)"));
        }
        return false;
    }
    if i + 1 >= parts.len() {
        error(out, tag_span, code, join3("`", axis, ":` is missing its value"));
        return false;
    }
    let (value, value_span) = parts[i + 1];
    assert(piece_views(parts@)[i + 1] == (Piece { text: value@, span: value_span }));
    if color {
        match parse_i64(value) {
            Some(n) => {
                if !(0 <= n && n <= 255) {
                    let shown = signed_text(n);
                    error(
                        out,
                        value_span,
                        code,
                        join5("`", axis, ":", shown.as_str(), "` is out of range (0-255)"),
                    );
                }
            },
            None => {
                error(
                    out,
                    value_span,
                    code,
                    join5("expected an integer for `", axis, ":`, found `", value, "`"),
                );
            },
        }
    } else if !parses_as_real(value) {
        error(
            out,
            value_span,
            code,
            join5("expected a number for `", axis, ":`, found `", value, "`"),
        );
    }
    true
}

/// Validate a tagged-axis value held by the first `n` tokens.
pub fn check_axes(
    key: &Option<SyntaxToken>,
    tokens: &Vec<SyntaxToken>,
    n: usize,
    rule: AxisRule<'_>,
    out: &mut Vec<Diagnostic>,
)
    requires
        n <= tokens.len(),
    ensures
        diags(final(out)@) == diags(old(out)@) + axes_diags(
            *key,
            tokens@,
            n as int,
            crate::text::slices(rule.axes@),
            crate::schema::text_of(rule.optional),
            rule.color,
        ),
{
    let ghost axes = crate::text::slices(rule.axes@);
    let ghost optional = crate::schema::text_of(rule.optional);
    let ghost start = diags(out@);
    let mut parts: Vec<(&str, Span)> = Vec::new();
    let ghost whole = token_pieces(tokens@, 0, n as int);
    assert(piece_views(parts@) + whole =~= whole);
    let mut t: usize = 0;
    while t < n
        invariant
            t <= n <= tokens.len(),
            piece_views(parts@) + token_pieces(tokens@, t as int, n as int) == whole,
        decreases n - t,
    {
        let ghost p0 = piece_views(parts@);
        split_pieces(tokens[t].text.as_str(), tokens[t].span, &mut parts);
        assert(piece_views(parts@) + token_pieces(tokens@, t + 1, n as int) =~= p0 + token_pieces(
            tokens@,
            t as int,
            n as int,
        ));
        t += 1;
    }
    assert(piece_views(parts@) =~= whole);
    let form = form_of(rule.axes, rule.axes.len());
    let mut i: usize = 0;
    let mut k: usize = 0;
    while k < rule.axes.len()
        invariant
            k <= rule.axes.len(),
            i == 2 * k,
            i <= parts.len(),
            axes == crate::text::slices(rule.axes@),
            optional == crate::schema::text_of(rule.optional),
            start == diags(old(out)@),
            whole == token_pieces(tokens@, 0, n as int),
            piece_views(parts@) == whole,
            form@ == axis_form(axes, axes.len() as int),
            diags(out@) + axes_from(whole, axes, optional, k as int, rule.color, *key) == start
                + axes_from(whole, axes, optional, 0, rule.color, *key),
        decreases rule.axes.len() - k,
    {
        let ghost d0 = diags(out@);
        let more = check_axis(
            &parts,
            i,
            rule.axes[k],
            true,
            rule.color,
            key,
            form.as_str(),
            out,
        );
        if !more {
            assert(diags(out@) =~= start + axes_from(whole, axes, optional, 0, rule.color, *key));
            return;
        }
        assert(diags(out@) + axes_from(whole, axes, optional, k + 1, rule.color, *key) =~= d0
            + axes_from(whole, axes, optional, k as int, rule.color, *key));
        i += 2;
        k += 1;
    }
    if let Some(axis) = rule.optional {
        let _more = check_axis(&parts, i, axis, false, rule.color, key, form.as_str(), out);
    }
}

/// A warning on the key of a field, where it has one.
pub open spec fn missing(key: Option<SyntaxToken>, tail: Seq<char>) -> Seq<DiagnosticView> {
    match key {
        Some(k) => warning_at(k.span, "missing-value"@, "`"@ + k.text@ + tail),
        None => nothing(),
    }
}

fn report_missing(key: &Option<SyntaxToken>, tail: &str, out: &mut Vec<Diagnostic>)
    ensures
        diags(final(out)@) == diags(old(out)@) + missing(*key, tail@),
{
    if let Some(k) = key {
        warning(out, k.span, "missing-value", join3("`", k.text.as_str(), tail));
    }
}

/// The tokens `from..to`, each by the single-token rule.
pub open spec fn each_token_diags(
    ctx: Ctx<'_>,
    tokens: Seq<SyntaxToken>,
    from: int,
    to: int,
    ty: ValueType,
) -> Seq<DiagnosticView>
    decreases to - from,
{
    if from < 0 || from >= to {
        nothing()
    } else {
        token_diags(ctx, tokens[from], ty) + each_token_diags(ctx, tokens, from + 1, to, ty)
    }
}

fn check_each_token(
    ctx: Ctx<'_>,
    tokens: &Vec<SyntaxToken>,
    from: usize,
    to: usize,
    ty: &ValueType,
    out: &mut Vec<Diagnostic>,
)
    requires
        from <= to <= tokens.len(),
    ensures
        diags(final(out)@) == diags(old(out)@) + each_token_diags(
            ctx,
            tokens@,
            from as int,
            to as int,
            *ty,
        ),
{
    let ghost start = diags(out@);
    let mut i: usize = from;
    while i < to
        invariant
            from <= i <= to <= tokens.len(),
            diags(out@) + each_token_diags(ctx, tokens@, i as int, to as int, *ty) == start
                + each_token_diags(ctx, tokens@, from as int, to as int, *ty),
        decreases to - i,
    {
        let ghost d0 = diags(out@);
        check_token(ctx, &tokens[i], ty, out);
        assert(diags(out@) + each_token_diags(ctx, tokens@, i + 1, to as int, *ty) =~= d0
            + each_token_diags(ctx, tokens@, i as int, to as int, *ty));
        i += 1;
    }
}

/// The tail of the message for a list with too few tokens.
pub open spec fn count_tail(specs: int, tokens: int) -> Seq<char> {
    "` expects "@ + decimal(specs as nat) + " values, found "@ + decimal(tokens as nat)
}

/// The elements of a token list from `s` on, where token `i` is next.
pub open spec fn list_diags(
    ctx: Ctx<'_>,
    key: Option<SyntaxToken>,
    tokens: Seq<SyntaxToken>,
    specs: Seq<ValueType>,
    s: int,
    i: int,
) -> Seq<DiagnosticView>
    decreases specs.len() - s,
{
    if s < 0 || s >= specs.len() {
        if specs.len() > 0 && specs.last().is_flags() {
            each_token_diags(ctx, tokens, i, tokens.len() as int, specs.last())
        } else {
            nothing()
        }
    } else if i >= tokens.len() {
        missing(key, count_tail(specs.len() as int, tokens.len() as int))
    } else {
        logical_diags(ctx, tokens, i, specs[s]) + list_diags(
            ctx,
            key,
            tokens,
            specs,
            s + 1,
            i + value_width(tokens, i, specs[s]),
        )
    }
}

fn check_list(
    ctx: Ctx<'_>,
    key: &Option<SyntaxToken>,
    tokens: &Vec<SyntaxToken>,
    specs: &Vec<ValueType>,
    out: &mut Vec<Diagnostic>,
)
    ensures
        diags(final(out)@) == diags(old(out)@) + list_diags(ctx, *key, tokens@, specs@, 0, 0),
{
    let ghost start = diags(out@);
    let ghost whole = list_diags(ctx, *key, tokens@, specs@, 0, 0);
    let mut i: usize = 0;
    let mut s: usize = 0;
    while s < specs.len()
        invariant
            s <= specs.len(),
            i <= tokens.len(),
            start == diags(old(out)@),
            whole == list_diags(ctx, *key, tokens@, specs@, 0, 0),
            diags(out@) + list_diags(ctx, *key, tokens@, specs@, s as int, i as int) == start
                + whole,
        decreases specs.len() - s,
    {
        let ghost d0 = diags(out@);
        if i >= tokens.len() {
            let a = number(specs.len());
            let b = number(tokens.len());
            let head = join3("` expects ", a.as_str(), " values, found ");
            let tail = join2(head.as_str(), b.as_str());
            report_missing(key, tail.as_str(), out);
            assert(diags(out@) =~= start + whole);
            return;
        }
        let width: usize = check_value_tokens(ctx, tokens, i, &specs[s], out);
        assert(diags(out@) + list_diags(
            ctx,
            *key,
            tokens@,
            specs@,
            s + 1,
            i + width,
        ) =~= d0 + list_diags(ctx, *key, tokens@, specs@, s as int, i as int));
        i += width;
        s += 1;
    }
    if specs.len() > 0 {
        let last = &specs[specs.len() - 1];
        if let ValueType::BitFlags { .. } = last {
            check_each_token(ctx, tokens, i, tokens.len(), last, out);
        }
    }
}

pub open spec fn rgb() -> Seq<Seq<char>> {
    seq!["R"@, "G"@, "B"@]
}

/// The rule for a field's value tokens.
pub open spec fn value_diags(
    ctx: Ctx<'_>,
    key: Option<SyntaxToken>,
    tokens: Seq<SyntaxToken>,
    ty: ValueType,
) -> Seq<DiagnosticView>
    decreases ty,
{
    if tokens.len() == 0 {
        match ty {
            ValueType::Unknown { .. } => nothing(),
            ValueType::AsciiStringList => nothing(),
            _ => missing(key, "` expects a value"@),
        }
    } else {
        let n = tokens.len() as int;
        match ty {
            ValueType::OneOf { variants } => {
                let k = crate::schema::active_variant(variants@, first_stripped(tokens));
                if 0 <= k < variants@.len() {
                    value_diags(ctx, key, tokens, variants@[k])
                } else {
                    nothing()
                }
            },
            ValueType::BitFlags { .. } => each_token_diags(ctx, tokens, 0, n, ty),
            ValueType::ReferenceList { .. } => each_token_diags(ctx, tokens, 0, n, ty),
            ValueType::RandomVariable { value_set } => each_token_diags(
                ctx,
                tokens,
                0,
                if n < 2 {
                    n
                } else {
                    2
                },
                ValueType::Real,
            ) + if n < 2 {
                missing(key, "` expects at least 2 values"@)
            } else {
                nothing()
            } + if n > 2 {
                enum_diags(ctx.analyzer, value_set@, tokens[2].span, tokens[2].text@)
            } else {
                nothing()
            },
            ValueType::RandomKeyframe => each_token_diags(
                ctx,
                tokens,
                0,
                if n < 2 {
                    n
                } else {
                    2
                },
                ValueType::Real,
            ) + if n > 2 {
                number_diags(tokens[2], NumKind::UInt)
            } else {
                missing(key, "` expects 3 values"@)
            },
            ValueType::ColorKeyframe => if n >= 4 {
                axes_diags(key, tokens, n - 1, rgb(), None, true) + number_diags(
                    tokens[n - 1],
                    NumKind::UInt,
                )
            } else {
                missing(key, "` expects a color and frame"@)
            },
            ValueType::TokenList { tokens: specs } => list_diags(ctx, key, tokens, specs@, 0, 0),
            ValueType::Color => axes_diags(key, tokens, n, rgb(), Some("A"@), true),
            ValueType::Coord2D => axes_diags(key, tokens, n, seq!["X"@, "Y"@], None, false),
            ValueType::Coord3D => axes_diags(key, tokens, n, seq!["X"@, "Y"@, "Z"@], None, false),
            _ => logical_diags(ctx, tokens, 0, ty),
        }
    }
}

/// Validate a field's value tokens against its declared type.
pub fn validate_value(
    ctx: Ctx<'_>,
    key: &Option<SyntaxToken>,
    tokens: &Vec<SyntaxToken>,
    ty: &ValueType,
    out: &mut Vec<Diagnostic>,
)
    ensures
        diags(final(out)@) == diags(old(out)@) + value_diags(ctx, *key, tokens@, *ty),
    decreases ty,
{
    if tokens.len() == 0 {
        match ty {
            ValueType::Unknown { .. } => {},
            ValueType::AsciiStringList => {},
            _ => report_missing(key, "` expects a value", out),
        }
        return;
    }
    let n: usize = tokens.len();
    let two: usize = if n < 2 {
        n
    } else {
        2
    };
    match ty {
        ValueType::OneOf { variants } => {
            let first = unquote(tokens[0].text.as_str());
            if variants.len() > 0 {
                let k: usize = crate::schema::variant_index(variants, Some(first));
                validate_value(ctx, key, tokens, &variants[k], out);
            }
        },
        ValueType::BitFlags { .. } => check_each_token(ctx, tokens, 0, n, ty, out),
        ValueType::ReferenceList { .. } => check_each_token(ctx, tokens, 0, n, ty, out),
        ValueType::RandomVariable { value_set } => {
            check_each_token(ctx, tokens, 0, two, &ValueType::Real, out);
            if n < 2 {
                report_missing(key, "` expects at least 2 values", out);
            }
            if n > 2 {
                check_enum_member_name(
                    ctx.analyzer,
                    value_set.as_str(),
                    tokens[2].span,
                    tokens[2].text.as_str(),
                    out,
                );
            }
        },
        ValueType::RandomKeyframe => {
            check_each_token(ctx, tokens, 0, two, &ValueType::Real, out);
            if n > 2 {
                check_number(&tokens[2], NumKind::UInt, out);
            } else {
                report_missing(key, "` expects 3 values", out);
            }
        },
        ValueType::ColorKeyframe => {
            if n >= 4 {
                let axes: [&'static str; 3] = ["R", "G", "B"];
                assert(crate::text::slices(axes@) =~= rgb());
                check_axes(
                    key,
                    tokens,
                    n - 1,
                    AxisRule { axes: axes.as_slice(), optional: None, color: true },
                    out,
                );
                check_number(&tokens[n - 1], NumKind::UInt, out);
            } else {
                report_missing(key, "` expects a color and frame", out);
            }
        },
        ValueType::TokenList { tokens: specs } => check_list(ctx, key, tokens, specs, out),
        ValueType::Color => {
            let axes: [&'static str; 3] = ["R", "G", "B"];
            assert(crate::text::slices(axes@) =~= rgb());
            check_axes(
                key,
                tokens,
                n,
                AxisRule { axes: axes.as_slice(), optional: Some("A"), color: true },
                out,
            );
        },
        ValueType::Coord2D => {
            let axes: [&'static str; 2] = ["X", "Y"];
            assert(crate::text::slices(axes@) =~= seq!["X"@, "Y"@]);
            check_axes(
                key,
                tokens,
                n,
                AxisRule { axes: axes.as_slice(), optional: None, color: false },
                out,
            );
        },
        ValueType::Coord3D => {
            let axes: [&'static str; 3] = ["X", "Y", "Z"];
            assert(crate::text::slices(axes@) =~= seq!["X"@, "Y"@, "Z"@]);
            check_axes(
                key,
                tokens,
                n,
                AxisRule { axes: axes.as_slice(), optional: None, color: false },
                out,
            );
        },
        _ => {
            let _width = check_value_tokens(ctx, tokens, 0, ty, out);
        },
    }
}

/// The elements of a header argument list from `s` on, where token `i` is
/// next.
pub open spec fn argument_list_diags(
    ctx: Ctx<'_>,
    tokens: Seq<SyntaxToken>,
    specs: Seq<ValueType>,
    s: int,
    i: int,
) -> Seq<DiagnosticView>
    decreases specs.len() - s,
{
    if s < 0 || s >= specs.len() || i >= tokens.len() {
        nothing()
    } else {
        logical_diags(ctx, tokens, i, specs[s]) + argument_list_diags(
            ctx,
            tokens,
            specs,
            s + 1,
            i + value_width(tokens, i, specs[s]),
        )
    }
}

/// The variant of a header argument's type that its first token selects.
pub open spec fn argument_variant(ty: ValueType, tokens: Seq<SyntaxToken>) -> ValueType {
    match ty.active(first_stripped(tokens)) {
        Some(variant) => variant,
        None => ty,
    }
}

/// The rule for the argument in a sub-block header.
pub open spec fn argument_diags(ctx: Ctx<'_>, tokens: Seq<SyntaxToken>, ty: ValueType) -> Seq<
    DiagnosticView,
> {
    if tokens.len() == 0 {
        nothing()
    } else {
        let variant = argument_variant(ty, tokens);
        match variant {
            ValueType::BitFlags { .. } => each_token_diags(
                ctx,
                tokens,
                0,
                tokens.len() as int,
                variant,
            ),
            ValueType::ReferenceList { .. } => each_token_diags(
                ctx,
                tokens,
                0,
                tokens.len() as int,
                variant,
            ),
            ValueType::TokenList { tokens: specs } => argument_list_diags(
                ctx,
                tokens,
                specs@,
                0,
                0,
            ),
            _ => logical_diags(ctx, tokens, 0, variant),
        }
    }
}

/// Validate the argument in a sub-block header.
pub fn validate_sub_block_argument(
    ctx: Ctx<'_>,
    tokens: &Vec<SyntaxToken>,
    ty: &ValueType,
    out: &mut Vec<Diagnostic>,
)
    ensures
        diags(final(out)@) == diags(old(out)@) + argument_diags(ctx, tokens@, *ty),
{
    if tokens.len() == 0 {
        return;
    }
    let first = unquote(tokens[0].text.as_str());
    let variant: &ValueType = match ty.variant_for_first_token(Some(first)) {
        Some(v) => v,
        None => ty,
    };
    assert(*variant == argument_variant(*ty, tokens@));
    match variant {
        ValueType::BitFlags { .. } => check_each_token(ctx, tokens, 0, tokens.len(), variant, out),
        ValueType::ReferenceList { .. } => check_each_token(
            ctx,
            tokens,
            0,
            tokens.len(),
            variant,
            out,
        ),
        ValueType::TokenList { tokens: specs } => {
            let ghost start = diags(out@);
            let ghost whole = argument_list_diags(ctx, tokens@, specs@, 0, 0);
            let mut i: usize = 0;
            let mut s: usize = 0;
            while s < specs.len() && i < tokens.len()
                invariant
                    s <= specs.len(),
                    i <= tokens.len(),
                    diags(out@) + argument_list_diags(ctx, tokens@, specs@, s as int, i as int)
                        == start + whole,
                decreases specs.len() - s,
            {
                let ghost d0 = diags(out@);
                let width: usize = check_value_tokens(ctx, tokens, i, &specs[s], out);
                assert(diags(out@) + argument_list_diags(
                    ctx,
                    tokens@,
                    specs@,
                    s + 1,
                    i + width,
                ) =~= d0 + argument_list_diags(ctx, tokens@, specs@, s as int, i as int));
                i += width;
                s += 1;
            }
        },
        _ => {
            let _width = check_value_tokens(ctx, tokens, 0, variant, out);
        },
    }
}

} // verus!
