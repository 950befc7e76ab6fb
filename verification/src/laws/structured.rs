//! How values of several parts are checked.

use vstd::prelude::*;

use crate::laws::text::{around, lacks, law_texts_part_at_the_first};
use crate::laws::values::{bare, lemma_single, one_token, tells};
use crate::numbers::is_real;
use crate::schema::{active_variant, first_carrier, ValueType};
use crate::syntax::SyntaxToken;
use crate::text::{same_ci, strip_suffix};
use crate::values::{
    argument_diags, each_token_diags, first_stripped, list_diags, token_diags, value_diags, Ctx,
    Severity,
};

verus! {

/// The type of a prefixed value that is read as if it stood alone.
pub open spec fn plain_inner(ty: ValueType) -> bool {
    ty is Bool || ty is Int || ty is UInt || ty is Real || ty is AngleReal || ty is Velocity || ty
        is Acceleration || ty is Duration || ty is Enum || ty is BitFlags || ty is Reference
}

/// A value `Prefix:Value` is right exactly where the value alone is, of the type behind
/// the prefix; with another prefix, or without a colon, it is an error.
pub proof fn law_prefixed_values_are_checked(
    ctx: Ctx<'_>,
    key: Option<SyntaxToken>,
    token: SyntaxToken,
    alone: SyntaxToken,
    ty: ValueType,
    spelled: Seq<char>,
)
    requires
        ty matches ValueType::Prefixed { prefix, value_type } && plain_inner(*value_type)
            && !same_ci(prefix@, "Loc"@),
        bare(token.text@),
        bare(alone.text@),
        lacks(spelled, ':'),
        token.text@ == around(spelled, ':', alone.text@) || token.text@ == spelled,
    ensures
        ({
            let prefix = ty->prefix@;
            let inner = *ty->Prefixed_value_type;
            let found = value_diags(ctx, key, seq![token], ty);
            if token.text@ == around(spelled, ':', alone.text@) && same_ci(spelled, prefix) {
                (found.len() == 0) == (value_diags(ctx, key, seq![alone], inner).len() == 0)
            } else {
                tells(found, Severity::Error, "bad-prefixed"@, token.span)
            }
        }),
{
    crate::laws::values::law_quotes_are_taken_off(token.text@);
    crate::laws::values::law_quotes_are_taken_off(alone.text@);
    law_texts_part_at_the_first(spelled, ':', alone.text@);
    let inner = *ty->Prefixed_value_type;
    assert(seq![token][0] == token);
    assert(seq![alone][0] == alone);
    assert(value_diags(ctx, key, seq![token], ty) == token_diags(ctx, token, ty));
    if inner is BitFlags {
        lemma_one(ctx, alone, inner);
    } else {
        lemma_single(ctx, key, alone, inner);
    }
    assert(token.text@ != around(spelled, ':', alone.text@) || token.text@ != spelled) by {
        assert(around(spelled, ':', alone.text@).len() > spelled.len());
    }
}

proof fn lemma_one(ctx: Ctx<'_>, token: SyntaxToken, ty: ValueType)
    ensures
        each_token_diags(ctx, seq![token], 0, 1, ty) == token_diags(ctx, token, ty),
{
    reveal_with_fuel(each_token_diags, 2);
    assert(seq![token][0] == token);
    assert(each_token_diags(ctx, seq![token], 0, 1, ty) =~= token_diags(ctx, token, ty));
}

/// A value whose prefix and colon stand in a token of their own has the findings of
/// the token behind them, by the type behind the prefix.
pub proof fn law_split_prefixes_are_joined(
    ctx: Ctx<'_>,
    key: Option<SyntaxToken>,
    first: SyntaxToken,
    value: SyntaxToken,
    ty: ValueType,
    spelled: Seq<char>,
)
    requires
        ty matches ValueType::Prefixed { prefix, value_type } && one_token(*value_type) && same_ci(
            spelled,
            prefix@,
        ) && !same_ci(prefix@, "Loc"@),
        first.text@ == spelled + ":"@,
        spelled.len() > 0 ==> spelled[0] != '"' && spelled.last() != '"',
    ensures
        value_diags(ctx, key, seq![first, value], ty) == value_diags(
            ctx,
            key,
            seq![value],
            *ty->Prefixed_value_type,
        ),
{
    reveal_strlit(":");
    reveal_strlit("\"");
    let tokens = seq![first, value];
    assert(tokens[0] == first && tokens[1] == value);
    let text = first.text@;
    assert(bare(text)) by {
        if spelled.len() > 0 {
            assert(text[0] == spelled[0]);
        } else {
            assert(text[0] == ':');
        }
    }
    crate::laws::values::law_quotes_are_taken_off(text);
    assert(text.last() == ':');
    assert(crate::text::unquoted(text) == text) by {
        assert(crate::text::trim_start(text, crate::text::CharClass::Quote) == text);
    }
    assert(":"@.is_suffix_of(text)) by {
        assert(text.subrange(spelled.len() as int, text.len() as int) =~= ":"@);
    }
    assert(text.take(text.len() - 1) =~= spelled);
    assert(strip_suffix(text, ":"@) == Some(spelled));
    lemma_single(ctx, key, value, *ty->Prefixed_value_type);
}

/// A place `Loc:X:n` takes a number for the axis `X`, and no other axis.
pub proof fn law_locations_are_checked(
    ctx: Ctx<'_>,
    key: Option<SyntaxToken>,
    token: SyntaxToken,
    ty: ValueType,
    spelled: Seq<char>,
    axis: Seq<char>,
    n: Seq<char>,
)
    requires
        ty matches ValueType::Prefixed { prefix, .. } && same_ci(prefix@, "Loc"@) && same_ci(
            spelled,
            prefix@,
        ),
        lacks(spelled, ':'),
        lacks(axis, ':'),
        bare(token.text@),
        token.text@ == around(spelled, ':', around(axis, ':', n)),
    ensures
        ({
            let found = value_diags(ctx, key, seq![token], ty);
            if !same_ci(axis, "X"@) {
                tells(found, Severity::Error, "bad-prefixed"@, token.span)
            } else if is_real(n) {
                found.len() == 0
            } else {
                tells(found, Severity::Error, "bad-number"@, token.span)
            }
        }),
{
    crate::laws::values::law_quotes_are_taken_off(token.text@);
    law_texts_part_at_the_first(spelled, ':', around(axis, ':', n));
    law_texts_part_at_the_first(axis, ':', n);
    assert(seq![token][0] == token);
    assert(value_diags(ctx, key, seq![token], ty) == token_diags(ctx, token, ty));
}

/// A random number takes two reals and, behind them, a choice of its distributions;
/// with one real alone it is also warned of at the key.
pub proof fn law_random_numbers_are_checked(
    ctx: Ctx<'_>,
    key: SyntaxToken,
    low: SyntaxToken,
    high: SyntaxToken,
    dist: SyntaxToken,
    value_set: String,
)
    ensures
        ({
            let ty = ValueType::RandomVariable { value_set };
            let some_key = Some(key);
            let real_low = value_diags(ctx, some_key, seq![low], ValueType::Real).len() == 0;
            let real_high = value_diags(ctx, some_key, seq![high], ValueType::Real).len() == 0;
            let choice = value_diags(
                ctx,
                some_key,
                seq![dist],
                ValueType::Enum { value_set },
            ).len() == 0;
            let one = value_diags(ctx, some_key, seq![low], ty);
            &&& one.len() > 0 && one.last().code == "missing-value"@ && one.last().severity
                == Severity::Warning && one.last().span == key.span
            &&& (value_diags(ctx, some_key, seq![low, high], ty).len() == 0) == (real_low
                && real_high)
            &&& (value_diags(ctx, some_key, seq![low, high, dist], ty).len() == 0) == (real_low
                && real_high && choice)
        }),
{
    reveal_with_fuel(each_token_diags, 3);
    let some_key = Some(key);
    lemma_single(ctx, some_key, low, ValueType::Real);
    lemma_single(ctx, some_key, high, ValueType::Real);
    lemma_single(ctx, some_key, dist, ValueType::Enum { value_set });
    assert(seq![low][0] == low);
    assert(seq![low, high][0] == low && seq![low, high][1] == high);
    assert(seq![low, high, dist][0] == low && seq![low, high, dist][1] == high && seq![
        low,
        high,
        dist,
    ][2] == dist);
}

/// A random keyframe takes two reals and a frame: an integer that is not negative.
pub proof fn law_random_keyframes_are_checked(
    ctx: Ctx<'_>,
    key: SyntaxToken,
    low: SyntaxToken,
    high: SyntaxToken,
    frame: SyntaxToken,
)
    ensures
        ({
            let ty = ValueType::RandomKeyframe;
            let some_key = Some(key);
            let two = value_diags(ctx, some_key, seq![low, high], ty);
            &&& two.len() > 0 && two.last().code == "missing-value"@ && two.last().span == key.span
            &&& (value_diags(ctx, some_key, seq![low, high, frame], ty).len() == 0) == (
            value_diags(ctx, some_key, seq![low], ValueType::Real).len() == 0 && value_diags(
                ctx,
                some_key,
                seq![high],
                ValueType::Real,
            ).len() == 0 && value_diags(ctx, some_key, seq![frame], ValueType::UInt).len() == 0)
        }),
{
    reveal_with_fuel(each_token_diags, 3);
    let some_key = Some(key);
    lemma_single(ctx, some_key, low, ValueType::Real);
    lemma_single(ctx, some_key, high, ValueType::Real);
    lemma_single(ctx, some_key, frame, ValueType::UInt);
    assert(seq![low, high][0] == low && seq![low, high][1] == high);
    assert(seq![low, high, frame][0] == low && seq![low, high, frame][1] == high && seq![
        low,
        high,
        frame,
    ][2] == frame);
}

/// Shapes of one token each.
pub open spec fn single_shapes(shapes: Seq<ValueType>) -> bool {
    forall|i: int| 0 <= i < shapes.len() ==> one_token(#[trigger] shapes[i])
}

proof fn lemma_list(
    ctx: Ctx<'_>,
    key: Option<SyntaxToken>,
    tokens: Seq<SyntaxToken>,
    shapes: Seq<ValueType>,
    from: int,
)
    requires
        single_shapes(shapes),
        shapes.len() > 0,
        0 <= from <= shapes.len(),
        shapes.len() <= tokens.len(),
    ensures
        (list_diags(ctx, key, tokens, shapes, from, from).len() == 0) == forall|i: int|
            from <= i < shapes.len() ==> (#[trigger] value_diags(
                ctx,
                key,
                seq![tokens[i]],
                shapes[i],
            )).len() == 0,
    decreases shapes.len() - from,
{
    if from < shapes.len() {
        lemma_list(ctx, key, tokens, shapes, from + 1);
        assert(one_token(shapes[from]));
        lemma_single(ctx, key, tokens[from], shapes[from]);
        let here = value_diags(ctx, key, seq![tokens[from]], shapes[from]);
        let rest = list_diags(ctx, key, tokens, shapes, from + 1, from + 1);
        assert(list_diags(ctx, key, tokens, shapes, from, from) == here + rest);
    } else {
        assert(one_token(shapes[shapes.len() - 1]));
    }
}

proof fn lemma_short_list(
    ctx: Ctx<'_>,
    key: SyntaxToken,
    tokens: Seq<SyntaxToken>,
    shapes: Seq<ValueType>,
    from: int,
)
    requires
        single_shapes(shapes),
        0 <= from <= tokens.len() < shapes.len(),
    ensures
        ({
            let found = list_diags(ctx, Some(key), tokens, shapes, from, from);
            found.len() > 0 && found.last().code == "missing-value"@ && found.last().severity
                == Severity::Warning && found.last().span == key.span
        }),
    decreases tokens.len() - from,
{
    if from < tokens.len() {
        lemma_short_list(ctx, key, tokens, shapes, from + 1);
        assert(one_token(shapes[from]));
        let rest = list_diags(ctx, Some(key), tokens, shapes, from + 1, from + 1);
        let all = list_diags(ctx, Some(key), tokens, shapes, from, from);
        assert(all.last() == rest.last());
    }
}

/// A list of shapes is right where each of its values is, by the shape in its place;
/// with fewer values than shapes it is warned of at the key.
pub proof fn law_shapes_are_checked_in_order(
    ctx: Ctx<'_>,
    key: SyntaxToken,
    tokens: Seq<SyntaxToken>,
    ty: ValueType,
)
    requires
        ty matches ValueType::TokenList { tokens: shapes } && single_shapes(shapes@)
            && shapes@.len() > 0,
        tokens.len() > 0,
    ensures
        ({
            let shapes = ty->tokens@;
            let found = value_diags(ctx, Some(key), tokens, ty);
            if tokens.len() < shapes.len() {
                found.len() > 0 && found.last().code == "missing-value"@ && found.last().severity
                    == Severity::Warning && found.last().span == key.span
            } else {
                (found.len() == 0) == forall|i: int|
                    0 <= i < shapes.len() ==> (#[trigger] value_diags(
                        ctx,
                        Some(key),
                        seq![tokens[i]],
                        shapes[i],
                    )).len() == 0
            }
        }),
{
    let shapes = ty->tokens@;
    if tokens.len() < shapes.len() {
        lemma_short_list(ctx, key, tokens, shapes, 0);
    } else {
        lemma_list(ctx, Some(key), tokens, shapes, 0);
    }
}

/// Variant `k` is the first that carries the prefix.
pub open spec fn first_with(variants: Seq<ValueType>, prefix: Seq<char>, k: int) -> bool {
    &&& 0 <= k < variants.len()
    &&& has_prefix(variants[k], prefix)
    &&& forall|j: int| 0 <= j < k ==> !has_prefix(#[trigger] variants[j], prefix)
}

/// A prefixed shape of that prefix, or a list that begins with one.
pub open spec fn has_prefix(ty: ValueType, prefix: Seq<char>) -> bool {
    match ty {
        ValueType::Prefixed { prefix: own, .. } => same_ci(own@, prefix),
        ValueType::TokenList { tokens } => tokens@.len() > 0 && (
        tokens@[0] matches ValueType::Prefixed { prefix: own, .. } && same_ci(own@, prefix)),
        _ => false,
    }
}

/// Variants that are no lists of lists.
pub open spec fn flat(variants: Seq<ValueType>) -> bool {
    forall|i: int|
        0 <= i < variants.len() ==> ((#[trigger] variants[i]) matches ValueType::TokenList { tokens }
            ==> tokens@.len() > 0 ==> !(tokens@[0] is TokenList))
}

proof fn lemma_carrier(variants: Seq<ValueType>, prefix: Seq<char>, from: int, k: int)
    requires
        flat(variants),
        0 <= from,
    ensures
        first_with(variants, prefix, k) && from <= k ==> first_carrier(variants, prefix, from) == k,
        (forall|j: int| 0 <= j < variants.len() ==> !has_prefix(#[trigger] variants[j], prefix))
            ==> first_carrier(variants, prefix, from) == if from <= variants.len() {
            variants.len() as int
        } else {
            first_carrier(variants, prefix, from)
        },
    decreases variants.len() - from,
{
    if from < variants.len() {
        reveal_with_fuel(ValueType::leading_prefix, 3);
        assert(crate::schema::carries(variants[from], prefix) == has_prefix(
            variants[from],
            prefix,
        ));
        if from < k || forall|j: int|
            0 <= j < variants.len() ==> !has_prefix(#[trigger] variants[j], prefix) {
            lemma_carrier(variants, prefix, from + 1, k);
        }
    }
}

/// A value with several shapes is read by the first shape whose prefix its first token
/// spells, and by the first of all where it spells none of them.
pub proof fn law_variants_are_chosen_by_prefix(
    ctx: Ctx<'_>,
    key: Option<SyntaxToken>,
    tokens: Seq<SyntaxToken>,
    ty: ValueType,
    spelled: Seq<char>,
    value: Seq<char>,
    k: int,
)
    requires
        ty matches ValueType::OneOf { variants } && flat(variants@) && variants@.len() > 0,
        tokens.len() > 0,
        bare(tokens[0].text@),
        lacks(spelled, ':'),
        tokens[0].text@ == around(spelled, ':', value) || tokens[0].text@ == spelled,
    ensures
        ({
            let variants = ty->variants@;
            let found = value_diags(ctx, key, tokens, ty);
            &&& tokens[0].text@ == around(spelled, ':', value) && first_with(variants, spelled, k)
                ==> found == value_diags(ctx, key, tokens, variants[k])
            &&& tokens[0].text@ == spelled || (forall|j: int|
                0 <= j < variants.len() ==> !has_prefix(#[trigger] variants[j], spelled))
                ==> found == value_diags(ctx, key, tokens, variants[0])
        }),
{
    let variants = ty->variants@;
    crate::laws::values::law_quotes_are_taken_off(tokens[0].text@);
    law_texts_part_at_the_first(spelled, ':', value);
    lemma_carrier(variants, spelled, 0, k);
    assert(around(spelled, ':', value).len() > spelled.len());
    assert(first_stripped(tokens) == Some(tokens[0].text@));
    let chosen = active_variant(variants, first_stripped(tokens));
    assert(0 <= chosen < variants.len()) by {
        lemma_active(variants, first_stripped(tokens));
    }
}

proof fn lemma_active(variants: Seq<ValueType>, first: Option<Seq<char>>)
    requires
        variants.len() > 0,
    ensures
        0 <= active_variant(variants, first) < variants.len(),
{
    if let Some(actual) = crate::schema::spelled_prefix(first) {
        lemma_carrier_bounds(variants, actual, 0);
    }
}

proof fn lemma_carrier_bounds(variants: Seq<ValueType>, actual: Seq<char>, from: int)
    requires
        0 <= from,
    ensures
        0 <= first_carrier(variants, actual, from) <= variants.len(),
    decreases variants.len() - from,
{
    if from < variants.len() {
        lemma_carrier_bounds(variants, actual, from + 1);
    }
}

/// The argument of a sub-block is checked as a field's value is; none is missed
/// where there is no argument.
pub proof fn law_arguments_are_checked(
    ctx: Ctx<'_>,
    key: Option<SyntaxToken>,
    token: SyntaxToken,
    ty: ValueType,
)
    requires
        one_token(ty),
    ensures
        argument_diags(ctx, seq![token], ty) == value_diags(ctx, key, seq![token], ty),
        argument_diags(ctx, Seq::empty(), ty).len() == 0,
{
    lemma_single(ctx, key, token, ty);
    assert(seq![token][0] == token);
}

} // verus!
