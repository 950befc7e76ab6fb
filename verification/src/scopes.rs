//! Diagnostics for scopes: fields and modules against the schema, assets and
//! model members against the index, and whole-object checks.

use vstd::prelude::*;

use crate::index::{
    asset_known, effective_model, is_override_layer, members_of, opt_str, override_layer, AssetKind,
    ModelMemberStrictness, WorkspaceIndex,
};
use crate::model::{
    contains_text, fits, is_model_asset_type, is_model_member_type, member_matches, member_mode,
    model_member_matches, model_member_mode, models_for_source, module_fits_slot, names_model,
    scope_of, scope_schema, source_models, ScopeSchema,
};
use crate::schema::{
    AudioExtension, Field, ModelMemberMode, ModelSource, ModuleSlot, ModuleType, ValueType,
};
use crate::syntax::{token_texts, Element, Parse, Span, SyntaxKind, SyntaxNode, SyntaxToken};
use crate::text::{
    eq_ci, join2, join3, join5, lower, rsplit_once, same, same_ci, slices, split_at_first,
    split_at_last, split_once, texts,
};
use crate::values::{
    argument_diags, diags, error, error_at, hint, hint_at, nothing, stripped, unquote,
    validate_sub_block_argument, validate_value, value_diags, warning, warning_at, Ctx, Diagnostic,
    DiagnosticView,
};

verus! {

/// What `format!("{:?}")` writes for a list of strings: a function of the
/// strings alone, with escapes that take the Unicode tables to state.
pub uninterp spec fn debug_text(list: Seq<Seq<char>>) -> Seq<char>;

/// Formats a list of strings with its `Debug` implementation; the result is
/// named by [`debug_text`].
#[verifier::external_body]
fn debug_list(list: &Vec<String>) -> (r: String)
    ensures
        r@ == debug_text(texts(list@)),
{
    format!("{:?}", list)
}

/// Whether a file name has that extension, up to ASCII case.
pub open spec fn extension_is(name: Seq<char>, extension: Seq<char>) -> bool {
    match rsplit_once(name, '.') {
        Some((_, actual)) => same_ci(actual, extension),
        None => false,
    }
}

/// Decides [`extension_is`].
pub fn has_extension(name: &str, extension: &str) -> (r: bool)
    ensures
        r == extension_is(name@, extension@),
{
    match split_at_last(name, '.') {
        Some((_stem, actual)) => eq_ci(actual, extension),
        None => false,
    }
}

pub open spec fn texture_known(index: &WorkspaceIndex, name: Seq<char>) -> bool {
    asset_known(index.asset_rows(), AssetKind::Texture, lower(name))
}

/// Whether an indexed texture backs a name of this type. A DDS file stands in
/// for the TGA of the same stem; a sequence may start at frame `0000`.
pub open spec fn texture_found(index: &WorkspaceIndex, ty: ValueType, name: Seq<char>) -> bool {
    match ty {
        ValueType::TextureFile => if extension_is(name, "dds"@) {
            texture_known(index, name)
        } else if extension_is(name, "tga"@) {
            texture_known(index, name) || texture_known(
                index,
                rsplit_once(name, '.')->Some_0.0 + ".dds"@,
            )
        } else {
            false
        },
        ValueType::TextureStem => texture_known(index, name + ".tga"@) || texture_known(
            index,
            name + ".dds"@,
        ),
        ValueType::TextureSequenceStem => texture_known(index, name + ".tga"@) || texture_known(
            index,
            name + ".dds"@,
        ) || texture_known(index, name + "0000.tga"@) || texture_known(index, name + "0000.dds"@),
        _ => false,
    }
}

/// Decides [`texture_found`].
pub fn texture_exists(index: &WorkspaceIndex, ty: &ValueType, name: &str) -> (r: bool)
    ensures
        r == texture_found(index, *ty, name@),
{
    match ty {
        ValueType::TextureFile => {
            if has_extension(name, "dds") {
                index.is_asset(AssetKind::Texture, name)
            } else if has_extension(name, "tga") {
                if index.is_asset(AssetKind::Texture, name) {
                    return true;
                }
                match split_at_last(name, '.') {
                    Some((stem, _extension)) => index.is_asset(
                        AssetKind::Texture,
                        join2(stem, ".dds").as_str(),
                    ),
                    None => false,
                }
            } else {
                false
            }
        },
        ValueType::TextureStem => index.is_asset(AssetKind::Texture, join2(name, ".tga").as_str())
            || index.is_asset(AssetKind::Texture, join2(name, ".dds").as_str()),
        ValueType::TextureSequenceStem => index.is_asset(
            AssetKind::Texture,
            join2(name, ".tga").as_str(),
        ) || index.is_asset(AssetKind::Texture, join2(name, ".dds").as_str()) || index.is_asset(
            AssetKind::Texture,
            join2(name, "0000.tga").as_str(),
        ) || index.is_asset(AssetKind::Texture, join2(name, "0000.dds").as_str()),
        _ => false,
    }
}

pub open spec fn audio_allowed(extension: AudioExtension, name: Seq<char>) -> bool {
    match extension {
        AudioExtension::Any => extension_is(name, "wav"@) || extension_is(name, "mp3"@),
        AudioExtension::Wav => extension_is(name, "wav"@),
        AudioExtension::Mp3 => extension_is(name, "mp3"@),
    }
}

pub open spec fn has_kind(index: &WorkspaceIndex, kind: AssetKind) -> bool {
    exists|i: int|
        0 <= i < index.asset_rows().len() && (#[trigger] index.asset_rows()[i]).item.kind == kind
}

/// Sound stems from token `i` on.
pub open spec fn stem_diags(
    index: &WorkspaceIndex,
    tokens: Seq<SyntaxToken>,
    i: int,
) -> Seq<DiagnosticView>
    decreases tokens.len() - i,
{
    if i < 0 || i >= tokens.len() {
        nothing()
    } else {
        let name = stripped(tokens[i].text@);
        let here = if !same_ci(name, "None"@) && !asset_known(
            index.asset_rows(),
            AssetKind::Audio,
            lower(name + ".wav"@),
        ) {
            warning_at(
                tokens[i].span,
                "unknown-audio-file"@,
                "`"@ + name + "` is not a known WAV sound stem"@,
            )
        } else {
            nothing()
        };
        here + stem_diags(index, tokens, i + 1)
    }
}

/// Audio and texture values against the indexed files. Nothing is said while
/// no file of the kind is indexed.
pub open spec fn raw_asset_diags(ctx: Ctx<'_>, tokens: Seq<SyntaxToken>, ty: ValueType) -> Seq<
    DiagnosticView,
> {
    match ctx.index {
        None => nothing(),
        Some(index) => match ty {
            ValueType::AudioFile { extension } => if has_kind(index, AssetKind::Audio)
                && tokens.len() > 0 {
                let name = stripped(tokens[0].text@);
                if !same_ci(name, "None"@) && (!audio_allowed(extension, name) || !asset_known(
                    index.asset_rows(),
                    AssetKind::Audio,
                    lower(name),
                )) {
                    warning_at(
                        tokens[0].span,
                        "unknown-audio-file"@,
                        "`"@ + name + "` is not a known audio file"@,
                    )
                } else {
                    nothing()
                }
            } else {
                nothing()
            },
            ValueType::AudioStemList => if has_kind(index, AssetKind::Audio) {
                stem_diags(index, tokens, 0)
            } else {
                nothing()
            },
            _ => if (ty is TextureFile || ty is TextureStem || ty is TextureSequenceStem)
                && has_kind(index, AssetKind::Texture) && tokens.len() > 0 {
                let name = stripped(tokens[0].text@);
                if !same_ci(name, "None"@) && !texture_found(index, ty, name) {
                    warning_at(
                        tokens[0].span,
                        "unknown-texture"@,
                        "`"@ + name + "` is not a known texture"@,
                    )
                } else {
                    nothing()
                }
            } else {
                nothing()
            },
        },
    }
}

/// Validate audio and texture values.
pub fn validate_raw_asset(
    ctx: Ctx<'_>,
    tokens: &Vec<SyntaxToken>,
    ty: &ValueType,
    out: &mut Vec<Diagnostic>,
)
    ensures
        diags(final(out)@) == diags(old(out)@) + raw_asset_diags(ctx, tokens@, *ty),
{
    let index = match ctx.index {
        Some(index) => index,
        None => {
            return;
        },
    };
    match ty {
        ValueType::AudioFile { extension } => {
            if index.has_assets(AssetKind::Audio) && tokens.len() > 0 {
                let name = unquote(tokens[0].text.as_str());
                let allowed = match extension {
                    AudioExtension::Any => has_extension(name, "wav") || has_extension(name, "mp3"),
                    AudioExtension::Wav => has_extension(name, "wav"),
                    AudioExtension::Mp3 => has_extension(name, "mp3"),
                };
                if !eq_ci(name, "None") && (!allowed || !index.is_asset(AssetKind::Audio, name)) {
                    warning(
                        out,
                        tokens[0].span,
                        "unknown-audio-file",
                        join3("`", name, "` is not a known audio file"),
                    );
                }
            }
        },
        ValueType::AudioStemList => {
            if index.has_assets(AssetKind::Audio) {
                let ghost start = diags(out@);
                let mut i: usize = 0;
                while i < tokens.len()
                    invariant
                        i <= tokens.len(),
                        diags(out@) + stem_diags(index, tokens@, i as int) == start + stem_diags(
                            index,
                            tokens@,
                            0,
                        ),
                    decreases tokens.len() - i,
                {
                    let ghost d0 = diags(out@);
                    let name = unquote(tokens[i].text.as_str());
                    if !eq_ci(name, "None") && !index.is_asset(
                        AssetKind::Audio,
                        join2(name, ".wav").as_str(),
                    ) {
                        warning(
                            out,
                            tokens[i].span,
                            "unknown-audio-file",
                            join3("`", name, "` is not a known WAV sound stem"),
                        );
                    }
                    assert(diags(out@) + stem_diags(index, tokens@, i + 1) =~= d0 + stem_diags(
                        index,
                        tokens@,
                        i as int,
                    ));
                    i += 1;
                }
            }
        },
        ValueType::TextureFile | ValueType::TextureStem | ValueType::TextureSequenceStem => {
            if index.has_assets(AssetKind::Texture) && tokens.len() > 0 {
                let name = unquote(tokens[0].text.as_str());
                if !eq_ci(name, "None") && !texture_exists(index, ty, name) {
                    warning(
                        out,
                        tokens[0].span,
                        "unknown-texture",
                        join3("`", name, "` is not a known texture"),
                    );
                }
            }
        },
        _ => {},
    }
}

/// The type and text of a value behind its prefix, if it carries one.
pub open spec fn behind_prefix(ty: ValueType, raw: Seq<char>) -> Option<(ValueType, Seq<char>)> {
    match ty {
        ValueType::Prefixed { prefix, value_type } => match split_once(raw, ':') {
            Some((actual, value)) => if same_ci(actual, prefix@) {
                Some((*value_type, value))
            } else {
                None
            },
            None => None,
        },
        _ => Some((ty, raw)),
    }
}

/// Whether some member of a model is addressed by the value.
pub open spec fn model_has_member(
    index: &WorkspaceIndex,
    model: Seq<char>,
    value: Seq<char>,
    mode: Option<ModelMemberMode>,
) -> bool {
    exists|i: int|
        0 <= i < members_of(index.model_rows(), lower(model)).len() && member_matches(
            #[trigger] members_of(index.model_rows(), lower(model))[i],
            value,
            mode,
        )
}

pub open spec fn model_known(index: &WorkspaceIndex, model: Seq<char>) -> bool {
    effective_model(index.model_rows(), lower(model)) is Some
}

/// The known models from `i` on that lack the member.
pub open spec fn models_without(
    index: &WorkspaceIndex,
    models: Seq<Seq<char>>,
    value: Seq<char>,
    mode: Option<ModelMemberMode>,
    i: int,
) -> Seq<Seq<char>>
    decreases models.len() - i,
{
    if i < 0 || i >= models.len() {
        Seq::empty()
    } else {
        let rest = models_without(index, models, value, mode, i + 1);
        if model_known(index, models[i]) && !model_has_member(index, models[i], value, mode) {
            seq![models[i]] + rest
        } else {
            rest
        }
    }
}

/// Whether a known model from `i` on has the member.
pub open spec fn some_model_has(
    index: &WorkspaceIndex,
    models: Seq<Seq<char>>,
    value: Seq<char>,
    mode: Option<ModelMemberMode>,
    i: int,
) -> bool
    decreases models.len() - i,
{
    if i < 0 || i >= models.len() {
        false
    } else {
        (model_known(index, models[i]) && model_has_member(index, models[i], value, mode))
            || some_model_has(index, models, value, mode, i + 1)
    }
}

/// The texts with `separator` between them.
pub open spec fn joined(list: Seq<Seq<char>>, separator: Seq<char>) -> Seq<char>
    decreases list.len(),
{
    if list.len() == 0 {
        Seq::empty()
    } else if list.len() == 1 {
        list[0]
    } else {
        joined(list.drop_last(), separator) + separator + list.last()
    }
}

/// Joins texts with a separator.
pub fn join_texts(list: &Vec<String>, separator: &str) -> (r: String)
    ensures
        r@ == joined(texts(list@), separator@),
{
    let ghost all = texts(list@);
    let mut out = String::new();
    let mut i: usize = 0;
    assert(out@ =~= joined(all.take(0), separator@));
    while i < list.len()
        invariant
            i <= list.len(),
            all == texts(list@),
            out@ == joined(all.take(i as int), separator@),
        decreases list.len() - i,
    {
        assert(all.take(i + 1).drop_last() =~= all.take(i as int));
        if i == 0 {
            out = list[0].clone();
        } else {
            out = join3(out.as_str(), separator, list[i].as_str());
        }
        i += 1;
    }
    assert(all.take(i as int) =~= all);
    out
}

/// Joins borrowed texts with a separator.
pub fn join_slices(list: &Vec<&'static str>, separator: &str) -> (r: String)
    ensures
        r@ == joined(slices(list@), separator@),
{
    let ghost all = slices(list@);
    let mut out = String::new();
    let mut i: usize = 0;
    assert(out@ =~= joined(all.take(0), separator@));
    while i < list.len()
        invariant
            i <= list.len(),
            all == slices(list@),
            out@ == joined(all.take(i as int), separator@),
        decreases list.len() - i,
    {
        assert(all.take(i + 1).drop_last() =~= all.take(i as int));
        if i == 0 {
            out = list[0].to_owned();
        } else {
            out = join3(out.as_str(), separator, list[i]);
        }
        i += 1;
    }
    assert(all.take(i as int) =~= all);
    out
}

/// A model member against the models that own it. Compatible: one of them has
/// it. Strict: all of them have it.
pub open spec fn member_diags(
    index: &WorkspaceIndex,
    span: Span,
    models: Seq<Seq<char>>,
    value: Seq<char>,
    mode: Option<ModelMemberMode>,
) -> Seq<DiagnosticView> {
    let lacking = models_without(index, models, value, mode, 0);
    if (index.strictness is Compatible && some_model_has(index, models, value, mode, 0))
        || lacking.len() == 0 {
        nothing()
    } else {
        warning_at(
            span,
            "unknown-model-member"@,
            "`"@ + value + "` is not a known W3D model bone or subobject"@
                + if index.strictness is Strict {
                " in "@ + joined(lacking, ", "@)
            } else {
                Seq::empty()
            },
        )
    }
}

/// One token of a model or model-member value.
pub open spec fn model_token_diags(
    ctx: Ctx<'_>,
    scope_node: int,
    ty: ValueType,
    tok: SyntaxToken,
    source: Option<ModelSource>,
    mode: Option<ModelMemberMode>,
) -> Seq<DiagnosticView> {
    match (ctx.index, behind_prefix(ty, stripped(tok.text@))) {
        (Some(index), Some((inner, value))) => if value.len() == 0 || same_ci(value, "None"@) {
            nothing()
        } else if names_model(inner) {
            if model_known(index, value) {
                nothing()
            } else {
                warning_at(
                    tok.span,
                    "unknown-model"@,
                    "`"@ + value + "` is not a known W3D model asset"@,
                )
            }
        } else if inner is W3dModelMember && !(index.strictness is Off) {
            member_diags(
                index,
                tok.span,
                source_models(ctx.analyzer, ctx.parse, scope_node, source, index),
                value,
                mode,
            )
        } else {
            nothing()
        },
        _ => nothing(),
    }
}

fn has_member(
    index: &WorkspaceIndex,
    model: &str,
    value: &str,
    mode: Option<ModelMemberMode>,
) -> (r: bool)
    ensures
        r == model_has_member(index, model@, value@, mode),
{
    let members = index.model_members(model);
    let ghost list = members_of(index.model_rows(), lower(model@));
    let mut i: usize = 0;
    while i < members.len()
        invariant
            i <= members.len(),
            texts(members@) == list,
            list == members_of(index.model_rows(), lower(model@)),
            forall|k: int| 0 <= k < i ==> !member_matches(#[trigger] list[k], value@, mode),
        decreases members.len() - i,
    {
        assert(list[i as int] == members@[i as int]@);
        if model_member_matches(members[i].as_str(), value, mode) {
            return true;
        }
        i += 1;
    }
    false
}

fn check_member(
    index: &WorkspaceIndex,
    span: Span,
    models: &Vec<String>,
    value: &str,
    mode: Option<ModelMemberMode>,
    out: &mut Vec<Diagnostic>,
)
    ensures
        diags(final(out)@) == diags(old(out)@) + member_diags(
            index,
            span,
            texts(models@),
            value@,
            mode,
        ),
{
    let ghost all = texts(models@);
    let mut lacking: Vec<String> = Vec::new();
    let mut found: bool = false;
    let mut i: usize = 0;
    assert(texts(lacking@) + models_without(index, all, value@, mode, 0) =~= models_without(
        index,
        all,
        value@,
        mode,
        0,
    ));
    while i < models.len()
        invariant
            i <= models.len(),
            all == texts(models@),
            (found || some_model_has(index, all, value@, mode, i as int)) == some_model_has(
                index,
                all,
                value@,
                mode,
                0,
            ),
            texts(lacking@) + models_without(index, all, value@, mode, i as int)
                == models_without(index, all, value@, mode, 0),
        decreases models.len() - i,
    {
        let ghost l0 = texts(lacking@);
        if index.is_model_asset(models[i].as_str()) {
            if has_member(index, models[i].as_str(), value, mode) {
                found = true;
            } else {
                lacking.push(models[i].clone());
                assert(texts(lacking@) =~= l0.push(all[i as int]));
            }
        }
        assert(texts(lacking@) + models_without(index, all, value@, mode, i + 1) =~= l0
            + models_without(index, all, value@, mode, i as int));
        i += 1;
    }
    assert(texts(lacking@) =~= models_without(index, all, value@, mode, 0));
    if (index.strictness == ModelMemberStrictness::Compatible && found) || lacking.len() == 0 {
        return;
    }
    let head = join3("`", value, "` is not a known W3D model bone or subobject");
    if index.strictness == ModelMemberStrictness::Strict {
        let list = join_texts(&lacking, ", ");
        let tail = join2(" in ", list.as_str());
        warning(out, span, "unknown-model-member", join2(head.as_str(), tail.as_str()));
    } else {
        assert(head@ + Seq::<char>::empty() =~= head@);
        warning(out, span, "unknown-model-member", head);
    }
}

/// Validate one token of a model or model-member value.
pub fn validate_model_asset_token(
    ctx: Ctx<'_>,
    scope_node: usize,
    ty: &ValueType,
    tok: &SyntaxToken,
    source: &Option<ModelSource>,
    mode: Option<ModelMemberMode>,
    out: &mut Vec<Diagnostic>,
)
    requires
        ctx.parse.wf(),
        scope_node < ctx.parse.nodes.len(),
    ensures
        diags(final(out)@) == diags(old(out)@) + model_token_diags(
            ctx,
            scope_node as int,
            *ty,
            *tok,
            *source,
            mode,
        ),
{
    let index = match ctx.index {
        Some(index) => index,
        None => {
            return;
        },
    };
    let raw = unquote(tok.text.as_str());
    let mut inner: &ValueType = ty;
    let mut value: &str = raw;
    if let ValueType::Prefixed { prefix, value_type } = ty {
        match split_at_first(raw, ':') {
            Some((actual, rest)) => {
                if !eq_ci(actual, prefix.as_str()) {
                    return;
                }
                inner = value_type;
                value = rest;
            },
            None => {
                return;
            },
        }
    }
    if value.is_empty() || eq_ci(value, "None") {
        return;
    }
    if is_model_asset_type(inner) {
        if !index.is_model_asset(value) {
            warning(
                out,
                tok.span,
                "unknown-model",
                join3("`", value, "` is not a known W3D model asset"),
            );
        }
        return;
    }
    if !is_model_member_type(inner) || index.strictness == ModelMemberStrictness::Off {
        return;
    }
    let models = models_for_source(ctx.analyzer, ctx.parse, scope_node, source.as_ref(), index);
    check_member(index, tok.span, &models, value, mode, out);
}

/// The texts of tokens without one pair of quotes.
pub open spec fn stripped_texts(tokens: Seq<SyntaxToken>) -> Seq<Seq<char>> {
    tokens.map_values(|t: SyntaxToken| stripped(t.text@))
}

/// The texts of tokens without one pair of quotes.
pub fn stripped_inputs(tokens: &Vec<SyntaxToken>) -> (r: Vec<&str>)
    ensures
        crate::text::slices(r@) == stripped_texts(tokens@),
{
    let mut out: Vec<&str> = Vec::new();
    let mut i: usize = 0;
    while i < tokens.len()
        invariant
            i <= tokens.len(),
            out.len() == i,
            forall|k: int| 0 <= k < i ==> (#[trigger] out@[k])@ == stripped(tokens@[k].text@),
        decreases tokens.len() - i,
    {
        out.push(unquote(tokens[i].text.as_str()));
        i += 1;
    }
    assert(crate::text::slices(out@) =~= stripped_texts(tokens@));
    out
}

/// The type of token `i` for the model checks.
pub open spec fn model_type_at(ty: ValueType, tokens: Seq<SyntaxToken>, i: int) -> Option<
    ValueType,
> {
    if ty is W3dModelList {
        Some(ty)
    } else {
        ty.input_type(stripped_texts(tokens), i)
    }
}

/// The model checks of a field's tokens from `i` on.
pub open spec fn model_field_diags(
    ctx: Ctx<'_>,
    scope_node: int,
    field: Field,
    tokens: Seq<SyntaxToken>,
    i: int,
) -> Seq<DiagnosticView>
    decreases tokens.len() - i,
{
    if i < 0 || i >= tokens.len() {
        nothing()
    } else {
        let mode = member_mode(field.model_member_mode, token_texts(tokens));
        let here = match model_type_at(field.value_type, tokens, i) {
            Some(ty) => model_token_diags(ctx, scope_node, ty, tokens[i], field.model_source, mode),
            None => nothing(),
        };
        here + model_field_diags(ctx, scope_node, field, tokens, i + 1)
    }
}

/// The model checks of a field, once any model is indexed.
pub open spec fn model_asset_diags(
    ctx: Ctx<'_>,
    scope_node: int,
    field: Field,
    tokens: Seq<SyntaxToken>,
) -> Seq<DiagnosticView> {
    match ctx.index {
        Some(index) => if index.model_rows().len() > 0 {
            model_field_diags(ctx, scope_node, field, tokens, 0)
        } else {
            nothing()
        },
        None => nothing(),
    }
}

/// Validate model and model-member values.
pub fn validate_model_asset(
    ctx: Ctx<'_>,
    scope_node: usize,
    field: &Field,
    tokens: &Vec<SyntaxToken>,
    out: &mut Vec<Diagnostic>,
)
    requires
        ctx.parse.wf(),
        scope_node < ctx.parse.nodes.len(),
    ensures
        diags(final(out)@) == diags(old(out)@) + model_asset_diags(
            ctx,
            scope_node as int,
            *field,
            tokens@,
        ),
{
    match ctx.index {
        Some(index) => {
            if !index.has_model_assets() {
                return;
            }
        },
        None => {
            return;
        },
    }
    let ghost start = diags(out@);
    let input = stripped_inputs(tokens);
    let mode = model_member_mode(field.model_member_mode, tokens);
    let mut i: usize = 0;
    while i < tokens.len()
        invariant
            i <= tokens.len(),
            ctx.parse.wf(),
            scope_node < ctx.parse.nodes.len(),
            crate::text::slices(input@) == stripped_texts(tokens@),
            mode == member_mode(field.model_member_mode, token_texts(tokens@)),
            diags(out@) + model_field_diags(ctx, scope_node as int, *field, tokens@, i as int)
                == start + model_field_diags(ctx, scope_node as int, *field, tokens@, 0),
        decreases tokens.len() - i,
    {
        let ghost d0 = diags(out@);
        let is_list = match &field.value_type {
            ValueType::W3dModelList => true,
            _ => false,
        };
        let ty: Option<&ValueType> = if is_list {
            Some(&field.value_type)
        } else {
            field.value_type.token_type_at_input(input.as_slice(), i)
        };
        if let Some(ty) = ty {
            validate_model_asset_token(
                ctx,
                scope_node,
                ty,
                &tokens[i],
                &field.model_source,
                mode,
                out,
            );
        }
        assert(diags(out@) + model_field_diags(ctx, scope_node as int, *field, tokens@, i + 1)
            =~= d0 + model_field_diags(ctx, scope_node as int, *field, tokens@, i as int));
        i += 1;
    }
}

/// Whether a tag of that name is among those visible, up to ASCII case.
pub open spec fn tag_visible(
    ctx: Ctx<'_>,
    object: Seq<char>,
    before: u32,
    name: Seq<char>,
) -> bool {
    crate::index::tag_named(
        ctx.index->Some_0.effective_tags(object, opt_str(ctx.file), Some(before)),
        name,
    )
}

pub open spec fn in_override_layer(ctx: Ctx<'_>) -> bool {
    match ctx.file {
        Some(f) => override_layer(f@),
        None => false,
    }
}

fn is_in_override_layer(ctx: Ctx<'_>) -> (r: bool)
    ensures
        r == in_override_layer(ctx),
{
    match ctx.file {
        Some(f) => is_override_layer(f),
        None => false,
    }
}

/// `RemoveModule` of an override layer must name a tag that the object has.
pub open spec fn remove_module_diags(
    ctx: Ctx<'_>,
    tokens: Seq<SyntaxToken>,
    object: Option<SyntaxToken>,
) -> Seq<DiagnosticView> {
    if in_override_layer(ctx) && ctx.index is Some && tokens.len() > 0 && object is Some {
        let tag = stripped(tokens[0].text@);
        let name = object->Some_0.text@;
        if tag_visible(ctx, name, tokens[0].span.start, tag) {
            nothing()
        } else {
            error_at(
                tokens[0].span,
                "unknown-module-tag"@,
                "`"@ + tag + "` is not a known module tag on `"@ + name + "`"@,
            )
        }
    } else {
        nothing()
    }
}

/// Validate the tag that `RemoveModule` names.
pub fn validate_remove_module(
    ctx: Ctx<'_>,
    tokens: &Vec<SyntaxToken>,
    object: &Option<SyntaxToken>,
    out: &mut Vec<Diagnostic>,
)
    ensures
        diags(final(out)@) == diags(old(out)@) + remove_module_diags(ctx, tokens@, *object),
{
    if !is_in_override_layer(ctx) || tokens.len() == 0 {
        return;
    }
    if let Some(index) = ctx.index {
        if let Some(object) = object {
            let tag = unquote(tokens[0].text.as_str());
            let known = index.effective_module_tags_for_object(
                object.text.as_str(),
                ctx.file,
                Some(tokens[0].span.start),
            );
            if !crate::index::has_tag_named(&known, tag) {
                error(
                    out,
                    tokens[0].span,
                    "unknown-module-tag",
                    join5(
                        "`",
                        tag,
                        "` is not a known module tag on `",
                        object.text.as_str(),
                        "`",
                    ),
                );
            }
        }
    }
}

/// Whether a slot of that keyword is declared.
pub open spec fn slot_at(slots: Seq<ModuleSlot>, keyword: Seq<char>, from: int) -> int
    decreases slots.len() - from,
{
    if from < 0 || from >= slots.len() {
        slots.len() as int
    } else if slots[from].keyword@ == keyword {
        from
    } else {
        slot_at(slots, keyword, from + 1)
    }
}

/// Decides [`slot_at`].
pub fn find_slot(slots: &[ModuleSlot], keyword: &str) -> (r: usize)
    ensures
        r == slot_at(slots@, keyword@, 0),
        r <= slots.len(),
{
    let mut i: usize = 0;
    while i < slots.len()
        invariant
            i <= slots.len(),
            slot_at(slots@, keyword@, 0) == slot_at(slots@, keyword@, i as int),
        decreases slots.len() - i,
    {
        if same(slots[i].keyword.as_str(), keyword) {
            return i;
        }
        i += 1;
    }
    i
}

/// A field of a scope.
pub open spec fn field_diags(
    ctx: Ctx<'_>,
    scope: ScopeSchema<'_>,
    scope_node: int,
    node: SyntaxNode,
) -> Seq<DiagnosticView> {
    match node.head {
        None => nothing(),
        Some(key) => match scope.field_of(key.text@) {
            Some(f) => value_diags(ctx, node.head, node.values@, f.value_type) + if same_ci(
                key.text@,
                "RemoveModule"@,
            ) {
                remove_module_diags(ctx, node.values@, ctx.parse.nodes@[scope_node].name)
            } else {
                nothing()
            } + model_asset_diags(ctx, scope_node, f, node.values@) + raw_asset_diags(
                ctx,
                node.values@,
                f.value_type,
            ),
            None => if !(scope is Unknown) && scope.field_list().len() > 0 && slot_at(
                scope.slot_list(),
                key.text@,
                0,
            ) == scope.slot_list().len() {
                warning_at(
                    key.span,
                    "unknown-field"@,
                    "unknown field `"@ + key.text@ + "` in "@ + scope.label_text(),
                )
            } else {
                nothing()
            },
        },
    }
}

/// Validate a field of a scope.
pub fn check_field(
    ctx: Ctx<'_>,
    scope: ScopeSchema<'_>,
    scope_node: usize,
    node: &SyntaxNode,
    out: &mut Vec<Diagnostic>,
)
    requires
        ctx.parse.wf(),
        scope_node < ctx.parse.nodes.len(),
    ensures
        diags(final(out)@) == diags(old(out)@) + field_diags(ctx, scope, scope_node as int, *node),
{
    if let Some(key) = &node.head {
        let name = key.text.as_str();
        if let Some(field) = scope.field(name) {
            validate_value(ctx, &node.head, &node.values, &field.value_type, out);
            if eq_ci(name, "RemoveModule") {
                validate_remove_module(
                    ctx,
                    &node.values,
                    &ctx.parse.nodes[scope_node].name,
                    out,
                );
            }
            validate_model_asset(ctx, scope_node, field, &node.values, out);
            validate_raw_asset(ctx, &node.values, &field.value_type, out);
        } else if scope.has_field_schema() {
            let slots = scope.module_slots();
            if find_slot(slots, name) == slots.len() {
                let label = scope.label();
                warning(
                    out,
                    key.span,
                    "unknown-field",
                    join2(join3("unknown field `", name, "` in ").as_str(), label.as_str()),
                );
            }
        }
    }
}

/// The tags that the map editor gives every new object.
pub open spec fn editor_default(tag: Seq<char>) -> bool {
    same_ci("ModuleTag_DefaultDestroyDie"@, tag) || same_ci(
        "ModuleTag_DefaultInactiveBody"@,
        tag,
    ) || same_ci("ModuleTag_DefaultW3DDefaultDraw"@, tag)
}

fn is_editor_default(tag: &str) -> (r: bool)
    ensures
        r == editor_default(tag@),
{
    eq_ci("ModuleTag_DefaultDestroyDie", tag) || eq_ci("ModuleTag_DefaultInactiveBody", tag)
        || eq_ci("ModuleTag_DefaultW3DDefaultDraw", tag)
}

/// A module outside the slots that accept one of its interfaces.
pub open spec fn slot_diags(name: SyntaxToken, module: ModuleType, slot: ModuleSlot) -> Seq<
    DiagnosticView,
> {
    if fits(module, slot) {
        nothing()
    } else {
        error_at(
            name.span,
            "module-wrong-slot"@,
            "module `"@ + name.text@ + "` cannot be placed in a `"@ + slot.keyword@
                + "` slot; it implements "@ + debug_text(texts(module.interfaces@))
                + " but the slot accepts "@ + debug_text(texts(slot.accepts@)),
        )
    }
}

fn check_slot(
    name: &SyntaxToken,
    module: &ModuleType,
    slot: &ModuleSlot,
    out: &mut Vec<Diagnostic>,
)
    ensures
        diags(final(out)@) == diags(old(out)@) + slot_diags(*name, *module, *slot),
{
    if !module_fits_slot(module, slot) {
        let front = join5(
            "module `",
            name.text.as_str(),
            "` cannot be placed in a `",
            slot.keyword.as_str(),
            "` slot; it implements ",
        );
        let implemented = debug_list(&module.interfaces);
        let accepted = debug_list(&slot.accepts);
        let middle = join3(front.as_str(), implemented.as_str(), " but the slot accepts ");
        error(
            out,
            name.span,
            "module-wrong-slot",
            join2(middle.as_str(), accepted.as_str()),
        );
    }
}

/// A module tag: it must be new within the object, and in an override layer
/// not one of the editor's.
pub open spec fn tag_diags(ctx: Ctx<'_>, tag: SyntaxToken, seen: Seq<Seq<char>>) -> Seq<
    DiagnosticView,
> {
    let repeated = if seen.contains(tag.text@) {
        warning_at(
            tag.span,
            "duplicate-module-tag"@,
            "module tag `"@ + tag.text@
                + "` is used more than once; tags must be unique within an object (the engine cannot remove a module by tag if duplicates exist)"@,
        )
    } else {
        nothing()
    };
    repeated + if in_override_layer(ctx) && editor_default(tag.text@) {
        hint_at(
            tag.span,
            "editor-default-module"@,
            "World Builder adds `"@ + tag.text@
                + "` to every new object; consider removing it with `RemoveModule "@ + tag.text@
                + "`"@,
        )
    } else {
        nothing()
    }
}

fn check_tag(
    ctx: Ctx<'_>,
    tag: &SyntaxToken,
    seen: &mut Vec<String>,
    out: &mut Vec<Diagnostic>,
)
    ensures
        diags(final(out)@) == diags(old(out)@) + tag_diags(ctx, *tag, texts(old(seen)@)),
        texts(final(seen)@) == if texts(old(seen)@).contains(tag.text@) {
            texts(old(seen)@)
        } else {
            texts(old(seen)@).push(tag.text@)
        },
{
    let ghost s0 = texts(seen@);
    let text = tag.text.as_str();
    if contains_text(seen, text) {
        warning(
            out,
            tag.span,
            "duplicate-module-tag",
            join3(
                "module tag `",
                text,
                "` is used more than once; tags must be unique within an object (the engine cannot remove a module by tag if duplicates exist)",
            ),
        );
    } else {
        seen.push(tag.text.clone());
        assert(texts(seen@) =~= s0.push(tag.text@));
    }
    if is_in_override_layer(ctx) && is_editor_default(text) {
        hint(
            out,
            tag.span,
            "editor-default-module",
            join5(
                "World Builder adds `",
                text,
                "` to every new object; consider removing it with `RemoveModule ",
                text,
                "`",
            ),
        );
    }
}

/// What the header of a module or sub-block yields.
pub struct HeadView<'a> {
    pub found: Seq<DiagnosticView>,
    pub seen: Seq<Seq<char>>,
    pub inner: ScopeSchema<'a>,
}

/// The tags seen once a header's tag is counted.
pub open spec fn seen_after(tag: Option<SyntaxToken>, seen: Seq<Seq<char>>) -> Seq<Seq<char>> {
    match tag {
        Some(t) => if seen.contains(t.text@) {
            seen
        } else {
            seen.push(t.text@)
        },
        None => seen,
    }
}

/// The header of a module in a declared slot.
pub open spec fn module_head<'a>(
    ctx: Ctx<'a>,
    node: int,
    slot: ModuleSlot,
    seen: Seq<Seq<char>>,
) -> HeadView<'a> {
    let n = ctx.parse.nodes@[node];
    match n.name {
        None => HeadView { found: nothing(), seen, inner: ScopeSchema::Unknown },
        Some(name) => match ctx.analyzer.module_of(name.text@) {
            Some(module) => HeadView {
                found: slot_diags(name, module, slot) + match n.tag {
                    Some(tag) => tag_diags(ctx, tag, seen),
                    None => warning_at(
                        name.span,
                        "missing-module-tag"@,
                        "module `"@ + name.text@ + "` has no module tag (e.g. `ModuleTag_01`)"@,
                    ),
                },
                seen: seen_after(n.tag, seen),
                inner: scope_of(ctx.analyzer, ctx.parse, node),
            },
            None => HeadView {
                found: warning_at(
                    name.span,
                    "unknown-module"@,
                    "unknown module `"@ + name.text@ + "`"@,
                ),
                seen,
                inner: ScopeSchema::Unknown,
            },
        },
    }
}

/// The header of a module or sub-block: a real module only where its slot is
/// one of the parent's module slots.
pub open spec fn head_view<'a>(
    ctx: Ctx<'a>,
    node: int,
    parent: ScopeSchema<'a>,
    seen: Seq<Seq<char>>,
) -> HeadView<'a> {
    let plain = HeadView {
        found: nothing(),
        seen,
        inner: scope_of(ctx.analyzer, ctx.parse, node),
    };
    match ctx.parse.nodes@[node].head {
        Some(slot) => {
            let k = slot_at(parent.slot_list(), slot.text@, 0);
            if k < parent.slot_list().len() {
                module_head(ctx, node, parent.slot_list()[k], seen)
            } else {
                plain
            }
        },
        None => plain,
    }
}

fn check_module_head<'a>(
    ctx: Ctx<'a>,
    node: usize,
    slot: &ModuleSlot,
    seen: &mut Vec<String>,
    out: &mut Vec<Diagnostic>,
) -> (inner: ScopeSchema<'a>)
    requires
        ctx.parse.wf(),
        node < ctx.parse.nodes.len(),
    ensures
        inner == module_head(ctx, node as int, *slot, texts(old(seen)@)).inner,
        texts(final(seen)@) == module_head(ctx, node as int, *slot, texts(old(seen)@)).seen,
        diags(final(out)@) == diags(old(out)@) + module_head(
            ctx,
            node as int,
            *slot,
            texts(old(seen)@),
        ).found,
{
    let n = &ctx.parse.nodes[node];
    match &n.name {
        None => ScopeSchema::Unknown,
        Some(name) => match ctx.analyzer.module(name.text.as_str()) {
            Some(module) => {
                check_slot(name, module, slot, out);
                match &n.tag {
                    Some(tag) => check_tag(ctx, tag, seen, out),
                    None => warning(
                        out,
                        name.span,
                        "missing-module-tag",
                        join3(
                            "module `",
                            name.text.as_str(),
                            "` has no module tag (e.g. `ModuleTag_01`)",
                        ),
                    ),
                }
                scope_schema(ctx.analyzer, ctx.parse, node)
            },
            None => {
                warning(
                    out,
                    name.span,
                    "unknown-module",
                    join3("unknown module `", name.text.as_str(), "`"),
                );
                ScopeSchema::Unknown
            },
        },
    }
}

/// Validates the header of a module or sub-block, and gives its schema.
pub fn check_head<'a>(
    ctx: Ctx<'a>,
    node: usize,
    parent: ScopeSchema<'a>,
    seen: &mut Vec<String>,
    out: &mut Vec<Diagnostic>,
) -> (inner: ScopeSchema<'a>)
    requires
        ctx.parse.wf(),
        node < ctx.parse.nodes.len(),
    ensures
        inner == head_view(ctx, node as int, parent, texts(old(seen)@)).inner,
        texts(final(seen)@) == head_view(ctx, node as int, parent, texts(old(seen)@)).seen,
        diags(final(out)@) == diags(old(out)@) + head_view(
            ctx,
            node as int,
            parent,
            texts(old(seen)@),
        ).found,
{
    if let Some(slot) = &ctx.parse.nodes[node].head {
        let slots = parent.module_slots();
        let k: usize = find_slot(slots, slot.text.as_str());
        if k < slots.len() {
            return check_module_head(ctx, node, &slots[k], seen, out);
        }
    }
    scope_schema(ctx.analyzer, ctx.parse, node)
}

/// Whether a node directly holds a field of exactly that key, from element
/// `k` on.
pub open spec fn direct_field(parse: &Parse, node: int, key: Seq<char>, k: int) -> bool
    decreases parse.nodes@[node].elements@.len() - k,
{
    if k < 0 || k >= parse.nodes@[node].elements@.len() {
        false
    } else {
        (match parse.nodes@[node].elements@[k] {
            Element::Node(c) => parse.nodes@[c as int].kind is Field && (
            parse.nodes@[c as int].head matches Some(h) && h.text@ == key),
            Element::Token(_) => false,
        }) || direct_field(parse, node, key, k + 1)
    }
}

/// Does `node` directly contain a field whose key is `key`?
pub fn has_direct_field(parse: &Parse, node: usize, key: &str) -> (r: bool)
    requires
        parse.wf(),
        node < parse.nodes.len(),
    ensures
        r == direct_field(parse, node as int, key@, 0),
{
    let mut k: usize = 0;
    while k < parse.nodes[node].elements.len()
        invariant
            parse.wf(),
            node < parse.nodes.len(),
            k <= parse.nodes@[node as int].elements.len(),
            direct_field(parse, node as int, key@, 0) == direct_field(
                parse,
                node as int,
                key@,
                k as int,
            ),
        decreases parse.nodes@[node as int].elements.len() - k,
    {
        if let Element::Node(c) = &parse.nodes[node].elements[k] {
            let child = &parse.nodes[*c];
            if child.kind == SyntaxKind::Field {
                if let Some(head) = &child.head {
                    if same(head.text.as_str(), key) {
                        return true;
                    }
                }
            }
        }
        k += 1;
    }
    false
}

/// What a sub-block's header finds beyond its schema: its argument, and a
/// weapon set without conditions.
pub open spec fn sub_block_diags(ctx: Ctx<'_>, node: int, inner: ScopeSchema<'_>) -> Seq<
    DiagnosticView,
> {
    let n = ctx.parse.nodes@[node];
    match inner {
        ScopeSchema::SubBlock(sb) => (match sb.argument_type {
            Some(ty) => argument_diags(ctx, n.values@, ty),
            None => nothing(),
        }) + match n.head {
            Some(slot) => if sb.keyword@ == "WeaponSet"@ && !direct_field(
                ctx.parse,
                node,
                "Conditions"@,
                0,
            ) {
                warning_at(
                    slot.span,
                    "missing-condition"@,
                    "`WeaponSet` has no `Conditions` field, making it the default set; use `Conditions = None` if that is intended"@,
                )
            } else {
                nothing()
            },
            None => nothing(),
        },
        _ => nothing(),
    }
}

/// Validates a sub-block's argument, and that a weapon set has a condition.
pub fn check_sub_block<'a>(
    ctx: Ctx<'a>,
    node: usize,
    inner: ScopeSchema<'a>,
    out: &mut Vec<Diagnostic>,
)
    requires
        ctx.parse.wf(),
        node < ctx.parse.nodes.len(),
    ensures
        diags(final(out)@) == diags(old(out)@) + sub_block_diags(ctx, node as int, inner),
{
    if let ScopeSchema::SubBlock(sb) = inner {
        if let Some(ty) = &sb.argument_type {
            validate_sub_block_argument(ctx, &ctx.parse.nodes[node].values, ty, out);
        }
        if let Some(slot) = &ctx.parse.nodes[node].head {
            if same(sb.keyword.as_str(), "WeaponSet") && !has_direct_field(
                ctx.parse,
                node,
                "Conditions",
            ) {
                warning(
                    out,
                    slot.span,
                    "missing-condition",
                    "`WeaponSet` has no `Conditions` field, making it the default set; use `Conditions = None` if that is intended".to_owned(),
                );
            }
        }
    }
}

/// Diagnostics together with the module tags seen so far.
pub struct WalkView {
    pub found: Seq<DiagnosticView>,
    pub seen: Seq<Seq<char>>,
}

/// Every field and nested scope of `node` from element `k` on, given the
/// schema of `node`.
pub open spec fn walk_view<'a>(
    ctx: Ctx<'a>,
    node: int,
    scope: ScopeSchema<'a>,
    k: int,
    seen: Seq<Seq<char>>,
) -> WalkView
    decreases ctx.parse.nodes@.len() - node, ctx.parse.nodes@[node].elements@.len() - k,
{
    if k < 0 || k >= ctx.parse.nodes@[node].elements@.len() {
        WalkView { found: nothing(), seen }
    } else {
        let here = match ctx.parse.nodes@[node].elements@[k] {
            Element::Node(c) => if node < c < ctx.parse.nodes@.len() {
                match ctx.parse.nodes@[c as int].kind {
                    SyntaxKind::Field => WalkView {
                        found: field_diags(ctx, scope, node, ctx.parse.nodes@[c as int]),
                        seen,
                    },
                    SyntaxKind::Module => {
                        let head = head_view(ctx, c as int, scope, seen);
                        let body = walk_view(ctx, c as int, head.inner, 0, head.seen);
                        WalkView {
                            found: head.found + sub_block_diags(ctx, c as int, head.inner)
                                + body.found,
                            seen: body.seen,
                        }
                    },
                    SyntaxKind::Block => walk_view(
                        ctx,
                        c as int,
                        scope_of(ctx.analyzer, ctx.parse, c as int),
                        0,
                        seen,
                    ),
                    SyntaxKind::Root => WalkView { found: nothing(), seen },
                }
            } else {
                WalkView { found: nothing(), seen }
            },
            Element::Token(_) => WalkView { found: nothing(), seen },
        };
        let rest = walk_view(ctx, node, scope, k + 1, here.seen);
        WalkView { found: here.found + rest.found, seen: rest.seen }
    }
}

/// Validate every field and nested scope directly inside `node`.
pub fn walk_scope<'a>(
    ctx: Ctx<'a>,
    node: usize,
    scope: ScopeSchema<'a>,
    seen: &mut Vec<String>,
    out: &mut Vec<Diagnostic>,
)
    requires
        ctx.parse.wf(),
        node < ctx.parse.nodes.len(),
    ensures
        texts(final(seen)@) == walk_view(ctx, node as int, scope, 0, texts(old(seen)@)).seen,
        diags(final(out)@) == diags(old(out)@) + walk_view(
            ctx,
            node as int,
            scope,
            0,
            texts(old(seen)@),
        ).found,
    decreases ctx.parse.nodes.len() - node,
{
    let ghost start = diags(out@);
    let ghost whole = walk_view(ctx, node as int, scope, 0, texts(seen@));
    let mut k: usize = 0;
    while k < ctx.parse.nodes[node].elements.len()
        invariant
            ctx.parse.wf(),
            node < ctx.parse.nodes.len(),
            k <= ctx.parse.nodes@[node as int].elements.len(),
            walk_view(ctx, node as int, scope, k as int, texts(seen@)).seen == whole.seen,
            diags(out@) + walk_view(ctx, node as int, scope, k as int, texts(seen@)).found == start
                + whole.found,
        decreases ctx.parse.nodes@[node as int].elements.len() - k,
    {
        let ghost d0 = diags(out@);
        let ghost s0 = texts(seen@);
        if let Element::Node(c) = &ctx.parse.nodes[node].elements[k] {
            let c: usize = *c;
            match ctx.parse.nodes[c].kind {
                SyntaxKind::Field => {
                    check_field(ctx, scope, node, &ctx.parse.nodes[c], out);
                },
                SyntaxKind::Module => {
                    let inner = check_head(ctx, c, scope, seen, out);
                    check_sub_block(ctx, c, inner, out);
                    walk_scope(ctx, c, inner, seen, out);
                },
                SyntaxKind::Block => {
                    let inner = scope_schema(ctx.analyzer, ctx.parse, c);
                    walk_scope(ctx, c, inner, seen, out);
                },
                SyntaxKind::Root => {},
            }
        }
        assert(diags(out@) + walk_view(ctx, node as int, scope, k + 1, texts(seen@)).found =~= d0
            + walk_view(ctx, node as int, scope, k as int, s0).found);
        k += 1;
    }
}

} // verus!
