//! Findings about values move with their tokens: two lists of tokens that
//! differ only in where they stand have the same findings, each relative to
//! its own start, as long as the value's type does not ask the index.

use vstd::prelude::*;

use crate::schema::ValueType;
use crate::shift::{maybe_token_view, moved, relative, token_view, token_views};
use crate::steady::asks_index;
use crate::syntax::{Span, SyntaxToken};
use crate::text::split_once;
use crate::values::{
    argument_diags, argument_list_diags, argument_variant, axes_diags, axes_from, axis_step,
    each_token_diags, finding, list_diags, loc_diags, logical_diags, nothing, number_diags, pieces_of,
    prefixed_value_diags, token_diags, token_pieces, value_diags, value_width, Ctx, DiagnosticView,
    NumKind, Piece, Severity,
};

verus! {

/// Taking findings relative to an offset works finding by finding.
pub proof fn lemma_relative_parts()
    ensures
        forall|o: u32| #[trigger] relative(nothing(), o) == nothing(),
        forall|a: Seq<DiagnosticView>, b: Seq<DiagnosticView>, o: u32| #[trigger]
            relative(a + b, o) == relative(a, o) + relative(b, o),
        forall|span: Span, severity: Severity, code: Seq<char>, message: Seq<char>, o: u32|
         #[trigger]
            relative(finding(span, severity, code, message), o) == finding(
                moved(span, o),
                severity,
                code,
                message,
            ),
{
    assert forall|o: u32| #[trigger] relative(nothing(), o) == nothing() by {
        assert(relative(nothing(), o) =~= nothing());
    }
    assert forall|a: Seq<DiagnosticView>, b: Seq<DiagnosticView>, o: u32| #[trigger]
        relative(a + b, o) == relative(a, o) + relative(b, o) by {
        assert(relative(a + b, o) =~= relative(a, o) + relative(b, o));
    }
    assert forall|span: Span, severity: Severity, code: Seq<char>, message: Seq<char>, o: u32|
     #[trigger]
        relative(finding(span, severity, code, message), o) == finding(
            moved(span, o),
            severity,
            code,
            message,
        ) by {
        assert(relative(finding(span, severity, code, message), o) =~= finding(
            moved(span, o),
            severity,
            code,
            message,
        ));
    }
}

/// Lists of tokens with the same views have the same length and, token by
/// token, the same views.
pub proof fn lemma_token_views(a: Seq<SyntaxToken>, oa: u32, b: Seq<SyntaxToken>, ob: u32)
    requires
        token_views(a, oa) == token_views(b, ob),
    ensures
        a.len() == b.len(),
        forall|i: int|
            0 <= i < a.len() ==> token_view(#[trigger] a[i], oa) == token_view(b[i], ob),
        forall|i: int|
            0 <= i < a.len() ==> token_view(a[i], oa) == token_view(#[trigger] b[i], ob),
{
    assert(token_views(a, oa).len() == a.len());
    assert(token_views(b, ob).len() == b.len());
    assert forall|i: int| 0 <= i < a.len() implies token_view(#[trigger] a[i], oa) == token_view(
        b[i],
        ob,
    ) by {
        assert(token_views(a, oa)[i] == token_view(a[i], oa));
        assert(token_views(b, ob)[i] == token_view(b[i], ob));
    }
    assert forall|i: int| 0 <= i < a.len() implies token_view(a[i], oa) == token_view(
        #[trigger] b[i],
        ob,
    ) by {
        assert(token_view(a[i], oa) == token_view(b[i], ob));
    }
}

proof fn lemma_prefixed_alike(
    c: Ctx<'_>,
    d: Ctx<'_>,
    a: Span,
    oa: u32,
    b: Span,
    ob: u32,
    prefix: Seq<char>,
    ty: ValueType,
    value: Seq<char>,
)
    requires
        c.analyzer == d.analyzer,
        moved(a, oa) == moved(b, ob),
        !asks_index(ty),
    ensures
        relative(prefixed_value_diags(c, a, prefix, ty, value), oa) == relative(
            prefixed_value_diags(d, b, prefix, ty, value),
            ob,
        ),
{
    lemma_relative_parts();
}

proof fn lemma_token_alike(
    c: Ctx<'_>,
    d: Ctx<'_>,
    a: SyntaxToken,
    oa: u32,
    b: SyntaxToken,
    ob: u32,
    ty: ValueType,
)
    requires
        c.analyzer == d.analyzer,
        token_view(a, oa) == token_view(b, ob),
        !asks_index(ty),
    ensures
        relative(token_diags(c, a, ty), oa) == relative(token_diags(d, b, ty), ob),
{
    lemma_relative_parts();
    assert(a.text@ == b.text@);
    assert(moved(a.span, oa) == moved(b.span, ob));
    match ty {
        ValueType::Prefixed { prefix, value_type } => {
            let text = crate::values::stripped(a.text@);
            match split_once(text, ':') {
                Some((_, value)) => {
                    assert(relative(loc_diags(a.span, value), oa) == relative(
                        loc_diags(b.span, value),
                        ob,
                    ));
                    lemma_prefixed_alike(
                        c,
                        d,
                        a.span,
                        oa,
                        b.span,
                        ob,
                        prefix@,
                        *value_type,
                        value,
                    );
                },
                None => {},
            }
        },
        ValueType::PositiveReal => {
            assert(relative(number_diags(a, NumKind::Real), oa) == relative(
                number_diags(b, NumKind::Real),
                ob,
            ));
        },
        _ => {},
    }
}

proof fn lemma_logical_alike(
    c: Ctx<'_>,
    d: Ctx<'_>,
    a: Seq<SyntaxToken>,
    oa: u32,
    b: Seq<SyntaxToken>,
    ob: u32,
    i: int,
    ty: ValueType,
)
    requires
        c.analyzer == d.analyzer,
        token_views(a, oa) == token_views(b, ob),
        0 <= i < a.len(),
        !asks_index(ty),
    ensures
        relative(logical_diags(c, a, i, ty), oa) == relative(logical_diags(d, b, i, ty), ob),
        value_width(a, i, ty) == value_width(b, i, ty),
{
    lemma_relative_parts();
    lemma_token_views(a, oa, b, ob);
    assert(token_view(a[i], oa) == token_view(b[i], ob));
    assert(a[i].text@ == b[i].text@);
    lemma_token_alike(c, d, a[i], oa, b[i], ob, ty);
    if i + 1 < a.len() {
        assert(token_view(a[i + 1], oa) == token_view(b[i + 1], ob));
        assert(a[i + 1].text@ == b[i + 1].text@);
        assert(moved(a[i + 1].span, oa) == moved(b[i + 1].span, ob));
        match ty.split_prefix(crate::values::stripped(a[i].text@)) {
            Some(inner) => {
                assert(!asks_index(inner));
                lemma_token_alike(c, d, a[i + 1], oa, b[i + 1], ob, inner);
            },
            None => {},
        }
    }
}

/// Pieces relative to an offset.
spec fn moved_pieces(list: Seq<Piece>, offset: u32) -> Seq<Piece> {
    list.map_values(|p: Piece| Piece { text: p.text, span: moved(p.span, offset) })
}

proof fn lemma_moved_pieces_add(a: Seq<Piece>, b: Seq<Piece>, offset: u32)
    ensures
        moved_pieces(a + b, offset) == moved_pieces(a, offset) + moved_pieces(b, offset),
{
    assert(moved_pieces(a + b, offset) =~= moved_pieces(a, offset) + moved_pieces(b, offset));
}

proof fn lemma_pieces_alike(s: Seq<char>, a: Span, oa: u32, b: Span, ob: u32)
    requires
        moved(a, oa) == moved(b, ob),
    ensures
        moved_pieces(pieces_of(s, a), oa) == moved_pieces(pieces_of(s, b), ob),
    decreases s.len(),
{
    let at = crate::text::find(s, ':', 0);
    let head_a = if at > 0 {
        seq![Piece { text: s.subrange(0, at), span: a }]
    } else {
        Seq::empty()
    };
    let head_b = if at > 0 {
        seq![Piece { text: s.subrange(0, at), span: b }]
    } else {
        Seq::empty()
    };
    assert(moved_pieces(head_a, oa) =~= moved_pieces(head_b, ob));
    if 0 <= at < s.len() {
        let rest = s.subrange(at + 1, s.len() as int);
        lemma_pieces_alike(rest, a, oa, b, ob);
        lemma_moved_pieces_add(head_a, pieces_of(rest, a), oa);
        lemma_moved_pieces_add(head_b, pieces_of(rest, b), ob);
    }
}

proof fn lemma_token_pieces_alike(
    a: Seq<SyntaxToken>,
    oa: u32,
    b: Seq<SyntaxToken>,
    ob: u32,
    k: int,
    n: int,
)
    requires
        token_views(a, oa) == token_views(b, ob),
        0 <= k,
        n <= a.len(),
    ensures
        moved_pieces(token_pieces(a, k, n), oa) == moved_pieces(token_pieces(b, k, n), ob),
    decreases n - k,
{
    lemma_token_views(a, oa, b, ob);
    if k < n {
        lemma_token_pieces_alike(a, oa, b, ob, k + 1, n);
        assert(token_view(a[k], oa) == token_view(b[k], ob));
        assert(a[k].text@ == b[k].text@);
        lemma_pieces_alike(a[k].text@, a[k].span, oa, b[k].span, ob);
        lemma_moved_pieces_add(pieces_of(a[k].text@, a[k].span), token_pieces(a, k + 1, n), oa);
        lemma_moved_pieces_add(pieces_of(b[k].text@, b[k].span), token_pieces(b, k + 1, n), ob);
    } else {
        assert(token_pieces(a, k, n) =~= token_pieces(b, k, n));
        assert(moved_pieces(token_pieces(a, k, n), oa) =~= moved_pieces(
            token_pieces(b, k, n),
            ob,
        ));
    }
}

proof fn lemma_axis_alike(
    a: Seq<Piece>,
    oa: u32,
    b: Seq<Piece>,
    ob: u32,
    i: int,
    axis: Seq<char>,
    required: bool,
    color: bool,
    key_a: Option<SyntaxToken>,
    key_b: Option<SyntaxToken>,
    form: Seq<char>,
)
    requires
        moved_pieces(a, oa) == moved_pieces(b, ob),
        maybe_token_view(key_a, oa) == maybe_token_view(key_b, ob),
        0 <= i,
    ensures
        relative(axis_step(a, i, axis, required, color, key_a, form).0, oa) == relative(
            axis_step(b, i, axis, required, color, key_b, form).0,
            ob,
        ),
        axis_step(a, i, axis, required, color, key_a, form).1 == axis_step(
            b,
            i,
            axis,
            required,
            color,
            key_b,
            form,
        ).1,
{
    lemma_relative_parts();
    let ma = moved_pieces(a, oa);
    let mb = moved_pieces(b, ob);
    assert(a.len() == ma.len() && b.len() == mb.len());
    if i < a.len() {
        assert(ma[i] == mb[i]);
        assert(a[i].text == b[i].text && moved(a[i].span, oa) == moved(b[i].span, ob));
    }
    if i + 1 < a.len() {
        assert(ma[i + 1] == mb[i + 1]);
        assert(a[i + 1].text == b[i + 1].text && moved(a[i + 1].span, oa) == moved(
            b[i + 1].span,
            ob,
        ));
    }
    if key_a is Some {
        assert(token_view(key_a->Some_0, oa) == token_view(key_b->Some_0, ob));
        assert(key_a->Some_0.text@ == key_b->Some_0.text@);
    }
}

proof fn lemma_axes_alike(
    a: Seq<Piece>,
    oa: u32,
    b: Seq<Piece>,
    ob: u32,
    axes: Seq<Seq<char>>,
    optional: Option<Seq<char>>,
    k: int,
    color: bool,
    key_a: Option<SyntaxToken>,
    key_b: Option<SyntaxToken>,
)
    requires
        moved_pieces(a, oa) == moved_pieces(b, ob),
        maybe_token_view(key_a, oa) == maybe_token_view(key_b, ob),
        0 <= k <= axes.len(),
    ensures
        relative(axes_from(a, axes, optional, k, color, key_a), oa) == relative(
            axes_from(b, axes, optional, k, color, key_b),
            ob,
        ),
    decreases axes.len() - k,
{
    lemma_relative_parts();
    let form = crate::values::axis_form(axes, axes.len() as int);
    if k < axes.len() {
        lemma_axis_alike(a, oa, b, ob, 2 * k, axes[k], true, color, key_a, key_b, form);
        lemma_axes_alike(a, oa, b, ob, axes, optional, k + 1, color, key_a, key_b);
    } else {
        match optional {
            Some(axis) => lemma_axis_alike(
                a,
                oa,
                b,
                ob,
                2 * k,
                axis,
                false,
                color,
                key_a,
                key_b,
                form,
            ),
            None => {},
        }
    }
}

proof fn lemma_axes_diags_alike(
    key_a: Option<SyntaxToken>,
    a: Seq<SyntaxToken>,
    oa: u32,
    key_b: Option<SyntaxToken>,
    b: Seq<SyntaxToken>,
    ob: u32,
    n: int,
    axes: Seq<Seq<char>>,
    optional: Option<Seq<char>>,
    color: bool,
)
    requires
        token_views(a, oa) == token_views(b, ob),
        maybe_token_view(key_a, oa) == maybe_token_view(key_b, ob),
        n <= a.len(),
    ensures
        relative(axes_diags(key_a, a, n, axes, optional, color), oa) == relative(
            axes_diags(key_b, b, n, axes, optional, color),
            ob,
        ),
{
    lemma_token_pieces_alike(a, oa, b, ob, 0, n);
    lemma_axes_alike(
        token_pieces(a, 0, n),
        oa,
        token_pieces(b, 0, n),
        ob,
        axes,
        optional,
        0,
        color,
        key_a,
        key_b,
    );
}

proof fn lemma_each_alike(
    c: Ctx<'_>,
    d: Ctx<'_>,
    a: Seq<SyntaxToken>,
    oa: u32,
    b: Seq<SyntaxToken>,
    ob: u32,
    from: int,
    to: int,
    ty: ValueType,
)
    requires
        c.analyzer == d.analyzer,
        token_views(a, oa) == token_views(b, ob),
        0 <= from,
        to <= a.len(),
        !asks_index(ty),
    ensures
        relative(each_token_diags(c, a, from, to, ty), oa) == relative(
            each_token_diags(d, b, from, to, ty),
            ob,
        ),
    decreases to - from,
{
    lemma_relative_parts();
    lemma_token_views(a, oa, b, ob);
    if from < to {
        assert(token_view(a[from], oa) == token_view(b[from], ob));
        lemma_token_alike(c, d, a[from], oa, b[from], ob, ty);
        lemma_each_alike(c, d, a, oa, b, ob, from + 1, to, ty);
    }
}

proof fn lemma_list_alike(
    c: Ctx<'_>,
    d: Ctx<'_>,
    key_a: Option<SyntaxToken>,
    a: Seq<SyntaxToken>,
    oa: u32,
    key_b: Option<SyntaxToken>,
    b: Seq<SyntaxToken>,
    ob: u32,
    specs: Seq<ValueType>,
    s: int,
    i: int,
)
    requires
        c.analyzer == d.analyzer,
        token_views(a, oa) == token_views(b, ob),
        maybe_token_view(key_a, oa) == maybe_token_view(key_b, ob),
        0 <= s,
        0 <= i,
        forall|k: int| 0 <= k < specs.len() ==> !asks_index(#[trigger] specs[k]),
    ensures
        relative(list_diags(c, key_a, a, specs, s, i), oa) == relative(
            list_diags(d, key_b, b, specs, s, i),
            ob,
        ),
    decreases specs.len() - s,
{
    lemma_relative_parts();
    lemma_token_views(a, oa, b, ob);
    if key_a is Some {
        assert(token_view(key_a->Some_0, oa) == token_view(key_b->Some_0, ob));
        assert(key_a->Some_0.text@ == key_b->Some_0.text@);
    }
    if s >= specs.len() {
        if specs.len() > 0 && specs.last().is_flags() {
            lemma_each_alike(c, d, a, oa, b, ob, i, a.len() as int, specs.last());
        }
    } else if i < a.len() {
        lemma_logical_alike(c, d, a, oa, b, ob, i, specs[s]);
        lemma_list_alike(
            c,
            d,
            key_a,
            a,
            oa,
            key_b,
            b,
            ob,
            specs,
            s + 1,
            i + value_width(a, i, specs[s]),
        );
    }
}

/// The findings about a field's value move with its tokens.
pub proof fn lemma_value_alike(
    c: Ctx<'_>,
    d: Ctx<'_>,
    key_a: Option<SyntaxToken>,
    a: Seq<SyntaxToken>,
    oa: u32,
    key_b: Option<SyntaxToken>,
    b: Seq<SyntaxToken>,
    ob: u32,
    ty: ValueType,
)
    requires
        c.analyzer == d.analyzer,
        token_views(a, oa) == token_views(b, ob),
        maybe_token_view(key_a, oa) == maybe_token_view(key_b, ob),
        !asks_index(ty),
    ensures
        relative(value_diags(c, key_a, a, ty), oa) == relative(value_diags(d, key_b, b, ty), ob),
    decreases ty,
{
    lemma_relative_parts();
    lemma_token_views(a, oa, b, ob);
    if key_a is Some {
        assert(token_view(key_a->Some_0, oa) == token_view(key_b->Some_0, ob));
        assert(key_a->Some_0.text@ == key_b->Some_0.text@);
    }
    if a.len() > 0 {
        let n = a.len() as int;
        assert(token_view(a[0], oa) == token_view(b[0], ob));
        assert(a[0].text@ == b[0].text@);
        if n > 2 {
            assert(token_view(a[2], oa) == token_view(b[2], ob));
            assert(a[2].text@ == b[2].text@);
        }
        assert(token_view(a[n - 1], oa) == token_view(b[n - 1], ob));
        assert(a[n - 1].text@ == b[n - 1].text@);
        let two = if n < 2 {
            n
        } else {
            2
        };
        match ty {
            ValueType::OneOf { variants } => {
                let k = crate::schema::active_variant(
                    variants@,
                    crate::values::first_stripped(a),
                );
                if 0 <= k < variants@.len() {
                    lemma_value_alike(c, d, key_a, a, oa, key_b, b, ob, variants@[k]);
                }
            },
            ValueType::BitFlags { .. } => lemma_each_alike(c, d, a, oa, b, ob, 0, n, ty),
            ValueType::RandomVariable { .. } => lemma_each_alike(
                c,
                d,
                a,
                oa,
                b,
                ob,
                0,
                two,
                ValueType::Real,
            ),
            ValueType::RandomKeyframe => lemma_each_alike(
                c,
                d,
                a,
                oa,
                b,
                ob,
                0,
                two,
                ValueType::Real,
            ),
            ValueType::ColorKeyframe => if n >= 4 {
                lemma_axes_diags_alike(
                    key_a,
                    a,
                    oa,
                    key_b,
                    b,
                    ob,
                    n - 1,
                    crate::values::rgb(),
                    None,
                    true,
                )
            },
            ValueType::TokenList { tokens: specs } => lemma_list_alike(
                c,
                d,
                key_a,
                a,
                oa,
                key_b,
                b,
                ob,
                specs@,
                0,
                0,
            ),
            ValueType::Color => lemma_axes_diags_alike(
                key_a,
                a,
                oa,
                key_b,
                b,
                ob,
                n,
                crate::values::rgb(),
                Some("A"@),
                true,
            ),
            ValueType::Coord2D => lemma_axes_diags_alike(
                key_a,
                a,
                oa,
                key_b,
                b,
                ob,
                n,
                seq!["X"@, "Y"@],
                None,
                false,
            ),
            ValueType::Coord3D => lemma_axes_diags_alike(
                key_a,
                a,
                oa,
                key_b,
                b,
                ob,
                n,
                seq!["X"@, "Y"@, "Z"@],
                None,
                false,
            ),
            _ => lemma_logical_alike(c, d, a, oa, b, ob, 0, ty),
        }
    }
}

proof fn lemma_argument_list_alike(
    c: Ctx<'_>,
    d: Ctx<'_>,
    a: Seq<SyntaxToken>,
    oa: u32,
    b: Seq<SyntaxToken>,
    ob: u32,
    specs: Seq<ValueType>,
    s: int,
    i: int,
)
    requires
        c.analyzer == d.analyzer,
        token_views(a, oa) == token_views(b, ob),
        0 <= s,
        0 <= i,
        forall|k: int| 0 <= k < specs.len() ==> !asks_index(#[trigger] specs[k]),
    ensures
        relative(argument_list_diags(c, a, specs, s, i), oa) == relative(
            argument_list_diags(d, b, specs, s, i),
            ob,
        ),
    decreases specs.len() - s,
{
    lemma_relative_parts();
    lemma_token_views(a, oa, b, ob);
    if s < specs.len() && i < a.len() {
        lemma_logical_alike(c, d, a, oa, b, ob, i, specs[s]);
        lemma_argument_list_alike(
            c,
            d,
            a,
            oa,
            b,
            ob,
            specs,
            s + 1,
            i + value_width(a, i, specs[s]),
        );
    }
}

/// The findings about a sub-block's argument move with its tokens.
pub proof fn lemma_argument_alike(
    c: Ctx<'_>,
    d: Ctx<'_>,
    a: Seq<SyntaxToken>,
    oa: u32,
    b: Seq<SyntaxToken>,
    ob: u32,
    ty: ValueType,
)
    requires
        c.analyzer == d.analyzer,
        token_views(a, oa) == token_views(b, ob),
        !asks_index(ty),
    ensures
        relative(argument_diags(c, a, ty), oa) == relative(argument_diags(d, b, ty), ob),
{
    lemma_relative_parts();
    lemma_token_views(a, oa, b, ob);
    if a.len() > 0 {
        assert(token_view(a[0], oa) == token_view(b[0], ob));
        assert(a[0].text@ == b[0].text@);
        let variant = argument_variant(ty, a);
        assert(variant == argument_variant(ty, b));
        match ty {
            ValueType::OneOf { variants } => {
                if variants@.len() > 0 {
                    let k = crate::schema::active_variant(
                        variants@,
                        crate::values::first_stripped(a),
                    );
                    lemma_active_in_range(variants@, crate::values::first_stripped(a));
                    assert(variant == variants@[k]);
                }
            },
            _ => {},
        }
        assert(!asks_index(variant));
        match variant {
            ValueType::BitFlags { .. } => lemma_each_alike(
                c,
                d,
                a,
                oa,
                b,
                ob,
                0,
                a.len() as int,
                variant,
            ),
            ValueType::TokenList { tokens: specs } => lemma_argument_list_alike(
                c,
                d,
                a,
                oa,
                b,
                ob,
                specs@,
                0,
                0,
            ),
            _ => lemma_logical_alike(c, d, a, oa, b, ob, 0, variant),
        }
    }
}

proof fn lemma_carrier_in_range(variants: Seq<ValueType>, actual: Seq<char>, from: int)
    requires
        0 <= from,
    ensures
        0 <= crate::schema::first_carrier(variants, actual, from),
    decreases variants.len() - from,
{
    if from < variants.len() {
        lemma_carrier_in_range(variants, actual, from + 1);
    }
}

/// The variant that an input selects is one of the variants.
pub proof fn lemma_active_in_range(variants: Seq<ValueType>, first: Option<Seq<char>>)
    requires
        variants.len() > 0,
    ensures
        0 <= crate::schema::active_variant(variants, first) < variants.len(),
{
    match crate::schema::spelled_prefix(first) {
        Some(actual) => lemma_carrier_in_range(variants, actual, 0),
        None => {},
    }
}

} // verus!
