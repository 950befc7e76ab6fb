//! Which values of a field are right, and what is said of the others.

use vstd::prelude::*;

use crate::analyzer::Analyzer;
use crate::laws::numbers::{
    law_decimals_are_digits, law_integers_have_64_bits, law_integers_read_back,
};
use crate::numbers::{int_literal, is_real, signed_decimal};
use crate::schema::{RefKind, ValueSet, ValueType};
use crate::syntax::{Span, SyntaxToken};
use crate::text::{decimal, find, is_digit, lower, same_ci};
use crate::values::{
    axes_from, axis_value_diags, each_token_diags, pieces_of, rgb, token_diags, token_pieces,
    value_diags, Ctx, DiagnosticView, Piece, Severity,
};

verus! {

/// One finding of that severity and code, at that range.
pub open spec fn tells(
    found: Seq<DiagnosticView>,
    severity: Severity,
    code: Seq<char>,
    span: Span,
) -> bool {
    &&& found.len() == 1
    &&& found[0].severity == severity
    &&& found[0].code == code
    &&& found[0].span == span
}

/// The right value has no finding, and a wrong one has an error of that code at
/// the token.
pub open spec fn right_or(
    right: bool,
    found: Seq<DiagnosticView>,
    code: Seq<char>,
    span: Span,
) -> bool {
    if right {
        found.len() == 0
    } else {
        tells(found, Severity::Error, code, span)
    }
}

/// A text that is not quoted at its start.
pub open spec fn bare(s: Seq<char>) -> bool {
    s.len() == 0 || s[0] != '"'
}

proof fn lemma_bare(s: Seq<char>)
    requires
        bare(s),
    ensures
        crate::values::stripped(s) == s,
{
    reveal_strlit("\"");
    if "\""@.is_prefix_of(s) {
        assert(s[0] == "\""@[0]);
    }
}

/// A value in quotes is read without them, and any other as it stands.
pub proof fn law_quotes_are_taken_off(s: Seq<char>)
    ensures
        crate::values::stripped("\""@ + s + "\""@) == s,
        bare(s) ==> crate::values::stripped(s) == s,
{
    reveal_strlit("\"");
    let q = "\""@ + s + "\""@;
    assert("\""@.is_prefix_of(q));
    let rest = q.skip(1);
    assert(rest =~= s + "\""@);
    assert("\""@.is_suffix_of(rest));
    assert(rest.take(rest.len() - 1) =~= s);
    if bare(s) {
        lemma_bare(s);
    }
}

/// A truth value is `Yes` or `No`, in any ASCII case.
pub proof fn law_truth_is_yes_or_no(ctx: Ctx<'_>, key: Option<SyntaxToken>, token: SyntaxToken)
    requires
        bare(token.text@),
    ensures
        right_or(
            same_ci(token.text@, "Yes"@) || same_ci(token.text@, "No"@),
            value_diags(ctx, key, seq![token], ValueType::Bool),
            "bad-bool"@,
            token.span,
        ),
{
    reveal_strlit("Yes");
    reveal_strlit("No");
    reveal_strlit("yes");
    reveal_strlit("no");
    lemma_bare(token.text@);
    assert(lower("Yes"@) =~= "yes"@);
    assert(lower("No"@) =~= "no"@);
    lemma_single(ctx, key, token, ValueType::Bool);
}

/// A type whose value is one token, without a prefix.
pub open spec fn one_token(ty: ValueType) -> bool {
    match ty {
        ValueType::Bool => true,
        ValueType::Int => true,
        ValueType::UInt => true,
        ValueType::Real => true,
        ValueType::PositiveReal => true,
        ValueType::AngleReal => true,
        ValueType::Velocity => true,
        ValueType::Acceleration => true,
        ValueType::Duration => true,
        ValueType::Percent => true,
        ValueType::Enum { .. } => true,
        ValueType::Reference { .. } => true,
        _ => false,
    }
}

pub proof fn lemma_single(ctx: Ctx<'_>, key: Option<SyntaxToken>, token: SyntaxToken, ty: ValueType)
    requires
        one_token(ty),
    ensures
        value_diags(ctx, key, seq![token], ty) == token_diags(ctx, token, ty),
{
    assert(seq![token].len() == 1);
    assert(seq![token][0] == token);
}

/// A whole-number field takes an integer of 64 bits.
pub proof fn law_integers_are_checked(
    ctx: Ctx<'_>,
    key: Option<SyntaxToken>,
    token: SyntaxToken,
    n: int,
)
    requires
        token.text@ == signed_decimal(n),
    ensures
        right_or(
            -9223372036854775808 <= n <= 9223372036854775807,
            value_diags(ctx, key, seq![token], ValueType::Int),
            "bad-number"@,
            token.span,
        ),
        right_or(
            0 <= n <= 18446744073709551615,
            value_diags(ctx, key, seq![token], ValueType::UInt),
            "bad-number"@,
            token.span,
        ),
{
    law_integers_have_64_bits(n);
    lemma_single(ctx, key, token, ValueType::Int);
    lemma_single(ctx, key, token, ValueType::UInt);
}

/// What is no integer is none for a whole-number field.
pub proof fn law_words_are_no_integers(
    ctx: Ctx<'_>,
    key: Option<SyntaxToken>,
    token: SyntaxToken,
    i: int,
)
    requires
        0 <= i < token.text@.len(),
        !is_digit(token.text@[i]),
        i > 0 || (token.text@[0] != '+' && token.text@[0] != '-'),
    ensures
        tells(
            value_diags(ctx, key, seq![token], ValueType::Int),
            Severity::Error,
            "bad-number"@,
            token.span,
        ),
        tells(
            value_diags(ctx, key, seq![token], ValueType::UInt),
            Severity::Error,
            "bad-number"@,
            token.span,
        ),
{
    crate::laws::numbers::law_integers_are_digits(token.text@, i);
    lemma_single(ctx, key, token, ValueType::Int);
    lemma_single(ctx, key, token, ValueType::UInt);
}

/// The types whose value is one real number.
pub open spec fn one_real(ty: ValueType) -> bool {
    ty is Real || ty is AngleReal || ty is Velocity || ty is Acceleration || ty is Duration
}

/// A real-number field takes a real number.
pub proof fn law_reals_are_checked(
    ctx: Ctx<'_>,
    key: Option<SyntaxToken>,
    token: SyntaxToken,
    ty: ValueType,
)
    requires
        one_real(ty),
    ensures
        right_or(
            is_real(token.text@),
            value_diags(ctx, key, seq![token], ty),
            "bad-number"@,
            token.span,
        ),
{
    lemma_single(ctx, key, token, ty);
}

/// A positive-number field takes a real number, and a warning goes with one that
/// is zero or below.
pub proof fn law_positive_reals_are_checked(
    ctx: Ctx<'_>,
    key: Option<SyntaxToken>,
    token: SyntaxToken,
    n: int,
)
    requires
        token.text@ == signed_decimal(n),
    ensures
        ({
            let found = value_diags(ctx, key, seq![token], ValueType::PositiveReal);
            if n > 0 {
                found.len() == 0
            } else {
                tells(found, Severity::Warning, "non-positive"@, token.span)
            }
        }),
{
    lemma_single(ctx, key, token, ValueType::PositiveReal);
    crate::laws::numbers::law_decimal_fractions_are_reals(n, Seq::empty(), 0);
    crate::laws::numbers::law_integers_above_zero_are_positive(n);
}

/// What is no real is none for a positive-number field.
pub proof fn law_words_are_no_positive_reals(
    ctx: Ctx<'_>,
    key: Option<SyntaxToken>,
    token: SyntaxToken,
)
    requires
        !is_real(token.text@),
    ensures
        tells(
            value_diags(ctx, key, seq![token], ValueType::PositiveReal),
            Severity::Error,
            "bad-number"@,
            token.span,
        ),
{
    lemma_single(ctx, key, token, ValueType::PositiveReal);
}

/// A percentage is a real number before a percent sign. Without the sign a real
/// number counts only where that is allowed.
pub proof fn law_percentages_are_checked(
    ctx: Ctx<'_>,
    key: Option<SyntaxToken>,
    token: SyntaxToken,
    n: Seq<char>,
)
    requires
        n.len() > 0 ==> n.last() != '%',
    ensures
        token.text@ == n + "%"@ ==> right_or(
            is_real(n),
            value_diags(ctx, key, seq![token], ValueType::Percent),
            "bad-percent"@,
            token.span,
        ),
        token.text@ == n ==> right_or(
            ctx.analyzer.allow_bare_percentages && is_real(n),
            value_diags(ctx, key, seq![token], ValueType::Percent),
            "bad-percent"@,
            token.span,
        ),
{
    reveal_strlit("%");
    lemma_single(ctx, key, token, ValueType::Percent);
    let s = n + "%"@;
    assert("%"@.is_suffix_of(s));
    assert(s.take(s.len() - 1) =~= n);
    if "%"@.is_suffix_of(n) {
        assert(n.subrange(n.len() - 1, n.len() as int)[0] == "%"@[0]);
    }
}

/// Whether a list names a value, up to ASCII case.
pub open spec fn listed(set: ValueSet, name: Seq<char>) -> bool {
    exists|i: int| 0 <= i < set.members@.len() && same_ci((#[trigger] set.members@[i]).name@, name)
}

/// Of a set of values that the schema lists, a field takes the members, in any
/// ASCII case, and no others.
pub proof fn law_choices_are_checked(
    ctx: Ctx<'_>,
    key: Option<SyntaxToken>,
    token: SyntaxToken,
    ty: ValueType,
    set: ValueSet,
)
    requires
        ty matches ValueType::Enum { value_set } && ctx.analyzer.value_set_of(value_set@) == Some(
            set,
        ),
        set.members@.len() > 0,
    ensures
        right_or(
            listed(set, token.text@),
            value_diags(ctx, key, seq![token], ty),
            "bad-enum"@,
            token.span,
        ),
{
    lemma_single(ctx, key, token, ty);
}

/// A set that the schema does not list, or lists without members, takes anything.
pub proof fn law_open_choices_take_anything(
    ctx: Ctx<'_>,
    key: Option<SyntaxToken>,
    token: SyntaxToken,
    ty: ValueType,
)
    requires
        ty matches ValueType::Enum { value_set } && (ctx.analyzer.value_set_of(
            value_set@,
        ) matches Some(set) ==> set.members@.len() == 0),
    ensures
        value_diags(ctx, key, seq![token], ty).len() == 0,
{
    lemma_single(ctx, key, token, ty);
}

/// A name without a sign in front.
pub open spec fn unsigned_name(name: Seq<char>) -> bool {
    name.len() == 0 || (name[0] != '+' && name[0] != '-')
}

/// A flag is a member of its set, `NONE` or `ALL`, in any ASCII case, with or
/// without a sign in front.
pub proof fn law_flags_are_checked(
    ctx: Ctx<'_>,
    token: SyntaxToken,
    ty: ValueType,
    set: ValueSet,
    name: Seq<char>,
)
    requires
        ty matches ValueType::BitFlags { value_set } && ctx.analyzer.value_set_of(value_set@)
            == Some(set),
        set.members@.len() > 0,
        unsigned_name(name),
        token.text@ == name || token.text@ == "+"@ + name || token.text@ == "-"@ + name,
    ensures
        right_or(
            listed(set, name) || same_ci(name, "NONE"@) || same_ci(name, "ALL"@),
            token_diags(ctx, token, ty),
            "bad-flag"@,
            token.span,
        ),
{
    reveal_strlit("+");
    reveal_strlit("-");
    reveal_with_fuel(crate::values::flag_name, 3);
    if token.text@ != name {
        assert(token.text@.skip(1) =~= name);
    }
    assert(crate::values::flag_name(token.text@) == name);
}

/// A list of flags or of names is right where every one of its tokens is, and the
/// findings of each are told.
pub proof fn law_lists_are_checked_token_by_token(
    ctx: Ctx<'_>,
    key: Option<SyntaxToken>,
    tokens: Seq<SyntaxToken>,
    ty: ValueType,
)
    requires
        ty is BitFlags || ty is ReferenceList,
        tokens.len() > 0,
    ensures
        value_diags(ctx, key, tokens, ty).len() == 0 <==> forall|i: int|
            0 <= i < tokens.len() ==> token_diags(ctx, #[trigger] tokens[i], ty).len() == 0,
        forall|i: int, k: int|
            #![trigger token_diags(ctx, tokens[i], ty)[k]]
            0 <= i < tokens.len() && 0 <= k < token_diags(ctx, tokens[i], ty).len()
                ==> value_diags(ctx, key, tokens, ty).contains(
                token_diags(ctx, tokens[i], ty)[k],
            ),
{
    let n = tokens.len() as int;
    assert(value_diags(ctx, key, tokens, ty) == each_token_diags(ctx, tokens, 0, n, ty));
    lemma_each_empty(ctx, tokens, 0, n, ty);
    assert forall|i: int, k: int|
        #![trigger token_diags(ctx, tokens[i], ty)[k]]
        0 <= i < tokens.len() && 0 <= k < token_diags(
            ctx,
            tokens[i],
            ty,
        ).len() implies value_diags(ctx, key, tokens, ty).contains(
        token_diags(ctx, tokens[i], ty)[k],
    ) by {
        lemma_each_holds(ctx, tokens, 0, n, ty, i, k);
    }
}

proof fn lemma_each_empty(
    ctx: Ctx<'_>,
    tokens: Seq<SyntaxToken>,
    from: int,
    to: int,
    ty: ValueType,
)
    requires
        0 <= from <= to <= tokens.len(),
    ensures
        each_token_diags(ctx, tokens, from, to, ty).len() == 0 <==> forall|i: int|
            from <= i < to ==> token_diags(ctx, #[trigger] tokens[i], ty).len() == 0,
    decreases to - from,
{
    if from < to {
        lemma_each_empty(ctx, tokens, from + 1, to, ty);
        if each_token_diags(ctx, tokens, from, to, ty).len() == 0 {
            assert forall|i: int| from <= i < to implies token_diags(
                ctx,
                #[trigger] tokens[i],
                ty,
            ).len() == 0 by {}
        }
    }
}

proof fn lemma_each_holds(
    ctx: Ctx<'_>,
    tokens: Seq<SyntaxToken>,
    from: int,
    to: int,
    ty: ValueType,
    i: int,
    k: int,
)
    requires
        0 <= from <= i < to <= tokens.len(),
        0 <= k < token_diags(ctx, tokens[i], ty).len(),
    ensures
        each_token_diags(ctx, tokens, from, to, ty).contains(token_diags(ctx, tokens[i], ty)[k]),
    decreases to - from,
{
    let here = token_diags(ctx, tokens[from], ty);
    let rest = each_token_diags(ctx, tokens, from + 1, to, ty);
    let all = here + rest;
    if from < i {
        lemma_each_holds(ctx, tokens, from + 1, to, ty, i, k);
        let j = choose|j: int|
            0 <= j < rest.len() && rest[j] == token_diags(ctx, tokens[i], ty)[k];
        assert(all[here.len() + j] == rest[j]);
    } else {
        assert(all[k] == here[k]);
    }
}

/// A name that no definition has to stand for: nothing, `None`, `NoSound` for a
/// sound, and what the engine makes itself.
pub open spec fn stands_for_nothing(analyzer: &Analyzer, kind: RefKind, name: Seq<char>) -> bool {
    ||| name.len() == 0
    ||| same_ci(name, "None"@)
    ||| kind == RefKind::AudioEvent && same_ci(name, "NoSound"@)
    ||| analyzer.builtin(kind, name)
}

/// A reference is warned of exactly where the workspace is known, the name stands
/// for something, and nothing of that kind and name, in any ASCII case, is
/// defined.
pub proof fn law_references_are_checked(
    ctx: Ctx<'_>,
    key: Option<SyntaxToken>,
    token: SyntaxToken,
    ty: ValueType,
    kind: RefKind,
)
    requires
        ty == (ValueType::Reference { ref_kind: kind }),
        bare(token.text@),
    ensures
        ({
            let found = value_diags(ctx, key, seq![token], ty);
            let defined = ctx.index matches Some(index) && exists|i: int|
                0 <= i < index.def_rows().len() && (#[trigger] index.def_rows()[i]).item.kind
                    == kind && index.def_rows()[i].item.key == lower(token.text@);
            if ctx.index is None || stands_for_nothing(ctx.analyzer, kind, token.text@)
                || defined {
                found.len() == 0
            } else {
                tells(found, Severity::Warning, "unresolved-reference"@, token.span)
            }
        }),
{
    lemma_bare(token.text@);
    lemma_single(ctx, key, token, ty);
}

/// A field without a value is warned of at its key, whatever its type, but for
/// types that may have none.
pub proof fn law_missing_values_are_told(
    ctx: Ctx<'_>,
    key: Option<SyntaxToken>,
    tokens: Seq<SyntaxToken>,
    ty: ValueType,
)
    requires
        tokens.len() == 0,
    ensures
        ({
            let found = value_diags(ctx, key, tokens, ty);
            if ty is Unknown || ty is AsciiStringList || key is None {
                found.len() == 0
            } else {
                tells(found, Severity::Warning, "missing-value"@, key->Some_0.span)
            }
        }),
{
}

/// The pieces of colons and axes: a name and a value for each.
pub open spec fn axis_pairs(parts: Seq<Piece>, names: Seq<Seq<char>>) -> bool {
    &&& parts.len() == 2 * names.len()
    &&& forall|i: int|
        0 <= i < names.len() ==> same_ci(parts[2 * i].text, #[trigger] names[i])
}

/// Whether a text is an integer from 0 to 255.
pub open spec fn is_byte(s: Seq<char>) -> bool {
    int_literal(s, true) matches Some(n) && 0 <= n <= 255
}

/// A colour of a red, a green and a blue is right exactly where each of them is
/// an integer from 0 to 255.
pub proof fn law_colors_are_bytes(ctx: Ctx<'_>, key: Option<SyntaxToken>, tokens: Seq<SyntaxToken>)
    requires
        tokens.len() > 0,
        axis_pairs(
            token_pieces(tokens, 0, tokens.len() as int),
            seq!["R"@, "G"@, "B"@],
        ),
    ensures
        ({
            let parts = token_pieces(tokens, 0, tokens.len() as int);
            let found = value_diags(ctx, key, tokens, ValueType::Color);
            &&& found.len() == 0 <==> is_byte(parts[1].text) && is_byte(parts[3].text) && is_byte(
                parts[5].text,
            )
            &&& forall|k: int|
                0 <= k < found.len() ==> (#[trigger] found[k]).code == "bad-color"@
                    && found[k].severity is Error
        }),
{
    let parts = token_pieces(tokens, 0, tokens.len() as int);
    let names = seq!["R"@, "G"@, "B"@];
    assert(rgb() =~= names);
    assert(same_ci(parts[0].text, names[0]));
    assert(same_ci(parts[2].text, names[1]));
    assert(same_ci(parts[4].text, names[2]));
    lemma_axes(parts, names, Some("A"@), 0, true, key);
    assert(axis_value_diags(names[0], parts[1], true).len() == 0 <==> is_byte(parts[1].text));
    assert(axis_value_diags(names[1], parts[3], true).len() == 0 <==> is_byte(parts[3].text));
    assert(axis_value_diags(names[2], parts[5], true).len() == 0 <==> is_byte(parts[5].text));
}

/// A point is right exactly where each of its coordinates is a real number.
pub proof fn law_coordinates_are_reals(
    ctx: Ctx<'_>,
    key: Option<SyntaxToken>,
    tokens: Seq<SyntaxToken>,
)
    requires
        tokens.len() > 0,
    ensures
        ({
            let parts = token_pieces(tokens, 0, tokens.len() as int);
            let flat = value_diags(ctx, key, tokens, ValueType::Coord2D);
            let deep = value_diags(ctx, key, tokens, ValueType::Coord3D);
            &&& axis_pairs(parts, seq!["X"@, "Y"@]) ==> (flat.len() == 0 <==> is_real(
                parts[1].text,
            ) && is_real(parts[3].text))
            &&& axis_pairs(parts, seq!["X"@, "Y"@, "Z"@]) ==> (deep.len() == 0 <==> is_real(
                parts[1].text,
            ) && is_real(parts[3].text) && is_real(parts[5].text))
        }),
{
    let parts = token_pieces(tokens, 0, tokens.len() as int);
    let two = seq!["X"@, "Y"@];
    let three = seq!["X"@, "Y"@, "Z"@];
    if axis_pairs(parts, two) {
        assert(same_ci(parts[0].text, two[0]));
        assert(same_ci(parts[2].text, two[1]));
        lemma_axes(parts, two, None, 0, false, key);
        assert(axis_value_diags(two[0], parts[1], false).len() == 0 <==> is_real(parts[1].text));
        assert(axis_value_diags(two[1], parts[3], false).len() == 0 <==> is_real(parts[3].text));
    }
    if axis_pairs(parts, three) {
        assert(same_ci(parts[0].text, three[0]));
        assert(same_ci(parts[2].text, three[1]));
        assert(same_ci(parts[4].text, three[2]));
        lemma_axes(parts, three, None, 0, false, key);
        assert(axis_value_diags(three[0], parts[1], false).len() == 0 <==> is_real(parts[1].text));
        assert(axis_value_diags(three[1], parts[3], false).len() == 0 <==> is_real(parts[3].text));
        assert(axis_value_diags(three[2], parts[5], false).len() == 0 <==> is_real(parts[5].text));
    }
}

proof fn lemma_axes(
    parts: Seq<Piece>,
    names: Seq<Seq<char>>,
    optional: Option<Seq<char>>,
    k: int,
    color: bool,
    key: Option<SyntaxToken>,
)
    requires
        axis_pairs(parts, names),
        0 <= k <= names.len(),
    ensures
        ({
            let found = axes_from(parts, names, optional, k, color, key);
            &&& found.len() == 0 <==> forall|i: int|
                k <= i < names.len() ==> axis_value_diags(
                    #[trigger] names[i],
                    parts[2 * i + 1],
                    color,
                ).len() == 0
            &&& color ==> forall|i: int|
                0 <= i < found.len() ==> (#[trigger] found[i]).code == "bad-color"@
                    && found[i].severity is Error
        }),
    decreases names.len() - k,
{
    if k < names.len() {
        assert(same_ci(parts[2 * k].text, names[k]));
        lemma_axes(parts, names, optional, k + 1, color, key);
        let here = axis_value_diags(names[k], parts[2 * k + 1], color);
        let rest = axes_from(parts, names, optional, k + 1, color, key);
        let found = axes_from(parts, names, optional, k, color, key);
        assert(found == here + rest);
        if found.len() == 0 {
            assert forall|i: int| k <= i < names.len() implies axis_value_diags(
                #[trigger] names[i],
                parts[2 * i + 1],
                color,
            ).len() == 0 by {}
        } else if here.len() == 0 {
            assert(rest.len() > 0);
        } else {
            assert(axis_value_diags(names[k], parts[2 * k + 1], color).len() != 0);
        }
        assert forall|i: int| color && 0 <= i < found.len() implies (
        #[trigger] found[i]).code == "bad-color"@ && found[i].severity is Error by {
            if i < here.len() {
                assert(found[i] == here[i]);
            } else {
                assert(found[i] == rest[i - here.len()]);
            }
        }
    }
}

/// A text without a colon.
pub open spec fn no_colon(s: Seq<char>) -> bool {
    forall|i: int| 0 <= i < s.len() ==> #[trigger] s[i] != ':'
}

proof fn lemma_find_none(s: Seq<char>, i: int)
    requires
        0 <= i <= s.len(),
        forall|k: int| i <= k < s.len() ==> #[trigger] s[k] != ':',
    ensures
        find(s, ':', i) == s.len(),
    decreases s.len() - i,
{
    if i < s.len() {
        lemma_find_none(s, i + 1);
    }
}

proof fn lemma_find_first(s: Seq<char>, i: int, at: int)
    requires
        0 <= i <= at < s.len(),
        s[at] == ':',
        forall|k: int| i <= k < at ==> #[trigger] s[k] != ':',
    ensures
        find(s, ':', i) == at,
    decreases at - i,
{
    if i < at {
        lemma_find_first(s, i + 1, at);
    }
}

/// A name and a value with a colon between them are the two pieces of a token.
pub proof fn law_colons_part_a_token(name: Seq<char>, value: Seq<char>, span: Span)
    requires
        no_colon(name),
        no_colon(value),
        name.len() > 0,
        value.len() > 0,
    ensures
        pieces_of(name + ":"@ + value, span) == seq![
            Piece { text: name, span },
            Piece { text: value, span },
        ],
{
    reveal_strlit(":");
    reveal_with_fuel(pieces_of, 3);
    let s = name + ":"@ + value;
    let at = name.len() as int;
    assert forall|k: int| 0 <= k < at implies #[trigger] s[k] != ':' by {
        assert(s[k] == name[k]);
    }
    assert(s[at] == ':');
    lemma_find_first(s, 0, at);
    assert(s.subrange(0, at) =~= name);
    let rest = s.subrange(at + 1, s.len() as int);
    assert(rest =~= value);
    lemma_find_none(value, 0);
    assert(value.subrange(0, value.len() as int) =~= value);
    assert(pieces_of(value, span) =~= seq![Piece { text: value, span }]);
    assert(pieces_of(s, span) =~= seq![Piece { text: name, span }, Piece { text: value, span }]);
}

proof fn lemma_written_axis(name: Seq<char>, n: int, span: Span)
    requires
        no_colon(name),
        name.len() > 0,
    ensures
        pieces_of(name + ":"@ + signed_decimal(n), span) == seq![
            Piece { text: name, span },
            Piece { text: signed_decimal(n), span },
        ],
{
    reveal_strlit("-");
    let size = if n < 0 {
        (-n) as nat
    } else {
        n as nat
    };
    law_decimals_are_digits(size);
    let value = signed_decimal(n);
    assert forall|i: int| 0 <= i < value.len() implies #[trigger] value[i] != ':' by {
        if n < 0 {
            if i > 0 {
                assert(is_digit(decimal(size)[i - 1]));
            }
        } else {
            assert(is_digit(decimal(size)[i]));
        }
    }
    law_colons_part_a_token(name, value, span);
}

/// A colour that is written `R:` red `G:` green `B:` blue is right exactly where
/// each of the three integers lies from 0 to 255, and each that does not has an
/// error at its token.
pub proof fn law_written_colors_are_checked(
    ctx: Ctx<'_>,
    key: Option<SyntaxToken>,
    tokens: Seq<SyntaxToken>,
    red: int,
    green: int,
    blue: int,
)
    requires
        tokens.len() == 3,
        tokens[0].text@ == "R"@ + ":"@ + signed_decimal(red),
        tokens[1].text@ == "G"@ + ":"@ + signed_decimal(green),
        tokens[2].text@ == "B"@ + ":"@ + signed_decimal(blue),
    ensures
        value_diags(ctx, key, tokens, ValueType::Color).len() == 0 <==> 0 <= red <= 255 && 0
            <= green <= 255 && 0 <= blue <= 255,
{
    reveal_strlit("R");
    reveal_strlit("G");
    reveal_strlit("B");
    reveal_with_fuel(token_pieces, 4);
    lemma_written_axis("R"@, red, tokens[0].span);
    lemma_written_axis("G"@, green, tokens[1].span);
    lemma_written_axis("B"@, blue, tokens[2].span);
    law_integers_read_back(red);
    law_integers_read_back(green);
    law_integers_read_back(blue);
    let parts = token_pieces(tokens, 0, 3);
    let one = pieces_of(tokens[0].text@, tokens[0].span);
    let two = pieces_of(tokens[1].text@, tokens[1].span);
    let three = pieces_of(tokens[2].text@, tokens[2].span);
    assert(parts =~= one + (two + three));
    assert(parts[0] == one[0] && parts[1] == one[1] && parts[2] == two[0] && parts[3] == two[1]
        && parts[4] == three[0] && parts[5] == three[1]);
    let names = seq!["R"@, "G"@, "B"@];
    assert forall|i: int| 0 <= i < names.len() implies same_ci(
        parts[2 * i].text,
        #[trigger] names[i],
    ) by {
        if i == 0 {
        } else if i == 1 {
        } else {
            assert(i == 2);
        }
    }
    law_colors_are_bytes(ctx, key, tokens);
}

} // verus!
