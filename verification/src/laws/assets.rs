//! How values that name game files and parts of models are checked.

use vstd::prelude::*;

use crate::index::{effective_model, members_of, AssetKind, ModelView, WorkspaceIndex};
use crate::laws::text::{
    around, lacks, law_digits_are_taken_off, law_last_parts, law_texts_part_at_the_last,
};
use crate::laws::values::{bare, tells};
use crate::model::{any_ci, member_matches, member_names};
use crate::schema::{AudioExtension, ModelMemberMode, ValueType};
use crate::scopes::{
    extension_is, has_kind, member_diags, model_has_member, model_known, models_without,
    raw_asset_diags, some_model_has, stem_diags,
};
use crate::syntax::{Span, SyntaxToken};
use crate::table::EntryView;
use crate::text::{is_digit, lower, same_ci, strip_suffix};
use crate::values::{stripped, Ctx, Severity};

verus! {

/// A game file of that kind is known, in any ASCII case.
pub open spec fn known_file(index: &WorkspaceIndex, kind: AssetKind, name: Seq<char>) -> bool {
    exists|i: int|
        0 <= i < index.asset_rows().len() && (#[trigger] index.asset_rows()[i]).item.kind == kind
            && same_ci(index.asset_rows()[i].item.name, name)
}

/// Some game file of that kind is known.
pub open spec fn any_file(index: &WorkspaceIndex, kind: AssetKind) -> bool {
    exists|i: int|
        0 <= i < index.asset_rows().len() && (#[trigger] index.asset_rows()[i]).item.kind == kind
}

proof fn lemma_known(index: &WorkspaceIndex, kind: AssetKind, name: Seq<char>)
    ensures
        crate::index::asset_known(index.asset_rows(), kind, lower(name)) == known_file(
            index,
            kind,
            name,
        ),
{
    let rows = index.asset_rows();
    if crate::index::asset_known(rows, kind, lower(name)) {
        let i = choose|i: int|
            0 <= i < rows.len() && (#[trigger] rows[i]).item.kind == kind && lower(
                rows[i].item.name,
            ) == lower(name);
        assert(rows[i].item.kind == kind && same_ci(rows[i].item.name, name));
    }
}

proof fn lemma_extension(stem: Seq<char>, ext: Seq<char>, wanted: Seq<char>)
    requires
        lacks(ext, '.'),
    ensures
        extension_is(stem + "."@ + ext, wanted) == same_ci(ext, wanted),
        crate::text::rsplit_once(stem + "."@ + ext, '.') == Some((stem, ext)),
{
    reveal_strlit(".");
    assert(stem + "."@ + ext =~= around(stem, '.', ext));
    law_texts_part_at_the_last(stem, '.', ext);
}

proof fn lemma_bare_name(s: Seq<char>)
    requires
        bare(s),
    ensures
        stripped(s) == s,
{
    crate::laws::values::law_quotes_are_taken_off(s);
}

/// A texture file is warned of exactly where some texture is known and this one is
/// not: a `.dds` by its own name, a `.tga` by its own name or that of the `.dds` of
/// the same stem, and any other name always.
pub proof fn law_textures_are_checked(
    ctx: Ctx<'_>,
    token: SyntaxToken,
    stem: Seq<char>,
    ext: Seq<char>,
)
    requires
        token.text@ == stem + "."@ + ext,
        bare(token.text@),
        lacks(ext, '.'),
        !same_ci(token.text@, "None"@),
        ctx.index matches Some(index) && any_file(index, AssetKind::Texture),
    ensures
        ({
            let index = ctx.index->Some_0;
            let found = raw_asset_diags(ctx, seq![token], ValueType::TextureFile);
            let right = if same_ci(ext, "dds"@) {
                known_file(index, AssetKind::Texture, token.text@)
            } else if same_ci(ext, "tga"@) {
                known_file(index, AssetKind::Texture, token.text@) || known_file(
                    index,
                    AssetKind::Texture,
                    stem + ".dds"@,
                )
            } else {
                false
            };
            if right {
                found.len() == 0
            } else {
                tells(found, Severity::Warning, "unknown-texture"@, token.span)
            }
        }),
{
    let index = ctx.index->Some_0;
    lemma_bare_name(token.text@);
    lemma_extension(stem, ext, "dds"@);
    lemma_extension(stem, ext, "tga"@);
    lemma_known(index, AssetKind::Texture, token.text@);
    lemma_known(index, AssetKind::Texture, stem + ".dds"@);
    assert(has_kind(index, AssetKind::Texture));
    assert(seq![token][0] == token);
}

/// A texture stem is warned of exactly where some texture is known and neither the
/// `.tga` nor the `.dds` of the stem is; a sequence may also start at frame `0000`.
pub proof fn law_texture_stems_are_checked(ctx: Ctx<'_>, token: SyntaxToken, sequence: bool)
    requires
        bare(token.text@),
        !same_ci(token.text@, "None"@),
        ctx.index matches Some(index) && any_file(index, AssetKind::Texture),
    ensures
        ({
            let index = ctx.index->Some_0;
            let stem = token.text@;
            let found = raw_asset_diags(
                ctx,
                seq![token],
                if sequence {
                    ValueType::TextureSequenceStem
                } else {
                    ValueType::TextureStem
                },
            );
            let right = known_file(index, AssetKind::Texture, stem + ".tga"@) || known_file(
                index,
                AssetKind::Texture,
                stem + ".dds"@,
            ) || sequence && (known_file(index, AssetKind::Texture, stem + "0000.tga"@)
                || known_file(index, AssetKind::Texture, stem + "0000.dds"@));
            if right {
                found.len() == 0
            } else {
                tells(found, Severity::Warning, "unknown-texture"@, token.span)
            }
        }),
{
    let index = ctx.index->Some_0;
    let stem = token.text@;
    lemma_bare_name(stem);
    lemma_known(index, AssetKind::Texture, stem + ".tga"@);
    lemma_known(index, AssetKind::Texture, stem + ".dds"@);
    lemma_known(index, AssetKind::Texture, stem + "0000.tga"@);
    lemma_known(index, AssetKind::Texture, stem + "0000.dds"@);
    assert(has_kind(index, AssetKind::Texture));
    assert(seq![token][0] == token);
}

/// A sound file is warned of exactly where some sound is known and this one is not,
/// or its extension is not one that the field takes: `.wav`, `.mp3`, or either.
pub proof fn law_sounds_are_checked(
    ctx: Ctx<'_>,
    token: SyntaxToken,
    stem: Seq<char>,
    ext: Seq<char>,
    extension: AudioExtension,
)
    requires
        token.text@ == stem + "."@ + ext,
        bare(token.text@),
        lacks(ext, '.'),
        !same_ci(token.text@, "None"@),
        ctx.index matches Some(index) && any_file(index, AssetKind::Audio),
    ensures
        ({
            let index = ctx.index->Some_0;
            let found = raw_asset_diags(ctx, seq![token], ValueType::AudioFile { extension });
            let taken = !(extension is Mp3) && same_ci(ext, "wav"@) || !(extension is Wav)
                && same_ci(ext, "mp3"@);
            if taken && known_file(index, AssetKind::Audio, token.text@) {
                found.len() == 0
            } else {
                tells(found, Severity::Warning, "unknown-audio-file"@, token.span)
            }
        }),
{
    let index = ctx.index->Some_0;
    lemma_bare_name(token.text@);
    lemma_extension(stem, ext, "wav"@);
    lemma_extension(stem, ext, "mp3"@);
    lemma_known(index, AssetKind::Audio, token.text@);
    assert(has_kind(index, AssetKind::Audio));
    assert(seq![token][0] == token);
}

proof fn lemma_stems(
    index: &WorkspaceIndex,
    tokens: Seq<SyntaxToken>,
    from: int,
    i: int,
) -> (at: int)
    requires
        0 <= from <= i < tokens.len(),
        !same_ci(stripped(tokens[i].text@), "None"@),
        !known_file(index, AssetKind::Audio, stripped(tokens[i].text@) + ".wav"@),
    ensures
        0 <= at < stem_diags(index, tokens, from).len(),
        stem_diags(index, tokens, from)[at].severity == Severity::Warning,
        stem_diags(index, tokens, from)[at].code == "unknown-audio-file"@,
        stem_diags(index, tokens, from)[at].span == tokens[i].span,
    decreases i - from,
{
    let all = stem_diags(index, tokens, from);
    let rest = stem_diags(index, tokens, from + 1);
    lemma_known(index, AssetKind::Audio, stripped(tokens[i].text@) + ".wav"@);
    if from < i {
        let at = lemma_stems(index, tokens, from + 1, i);
        let n = all.len() - rest.len();
        assert(all[n + at] == rest[at]);
        n + at
    } else {
        0
    }
}

proof fn lemma_stems_quiet(index: &WorkspaceIndex, tokens: Seq<SyntaxToken>, from: int)
    requires
        0 <= from,
        forall|i: int|
            0 <= i < tokens.len() ==> same_ci(stripped((#[trigger] tokens[i]).text@), "None"@)
                || known_file(index, AssetKind::Audio, stripped(tokens[i].text@) + ".wav"@),
    ensures
        stem_diags(index, tokens, from).len() == 0,
    decreases tokens.len() - from,
{
    if from < tokens.len() {
        lemma_known(index, AssetKind::Audio, stripped(tokens[from].text@) + ".wav"@);
        assert(same_ci(stripped(tokens[from].text@), "None"@) || known_file(
            index,
            AssetKind::Audio,
            stripped(tokens[from].text@) + ".wav"@,
        ));
        lemma_stems_quiet(index, tokens, from + 1);
    }
}

/// In a list of sound stems each one whose `.wav` is not known is warned of at its
/// place, and there is no finding where all are known or `None`.
pub proof fn law_sound_stems_are_checked(ctx: Ctx<'_>, tokens: Seq<SyntaxToken>, i: int)
    requires
        ctx.index matches Some(index) && any_file(index, AssetKind::Audio),
        0 <= i < tokens.len(),
    ensures
        ({
            let index = ctx.index->Some_0;
            let found = raw_asset_diags(ctx, tokens, ValueType::AudioStemList);
            let name = stripped(tokens[i].text@);
            &&& !same_ci(name, "None"@) && !known_file(index, AssetKind::Audio, name + ".wav"@)
                ==> exists|k: int|
                0 <= k < found.len() && (#[trigger] found[k]).span == tokens[i].span
                    && found[k].severity == Severity::Warning && found[k].code
                    == "unknown-audio-file"@
            &&& (forall|j: int|
                0 <= j < tokens.len() ==> same_ci(stripped((#[trigger] tokens[j]).text@), "None"@)
                    || known_file(index, AssetKind::Audio, stripped(tokens[j].text@) + ".wav"@))
                ==> found.len() == 0
        }),
{
    let index = ctx.index->Some_0;
    let name = stripped(tokens[i].text@);
    assert(has_kind(index, AssetKind::Audio));
    if !same_ci(name, "None"@) && !known_file(index, AssetKind::Audio, name + ".wav"@) {
        let at = lemma_stems(index, tokens, 0, i);
        assert(raw_asset_diags(ctx, tokens, ValueType::AudioStemList)[at].span == tokens[i].span);
    }
    if forall|j: int|
        0 <= j < tokens.len() ==> same_ci(stripped((#[trigger] tokens[j]).text@), "None"@)
            || known_file(index, AssetKind::Audio, stripped(tokens[j].text@) + ".wav"@) {
        lemma_stems_quiet(index, tokens, 0);
    }
}

/// Nothing is said of files without an index, where no file of the kind is known, of
/// the name `None`, and of values that name no file.
pub proof fn law_files_are_not_checked_blindly(
    ctx: Ctx<'_>,
    token: SyntaxToken,
    ty: ValueType,
)
    requires
        bare(token.text@),
    ensures
        ({
            let found = raw_asset_diags(ctx, seq![token], ty);
            &&& ctx.index is None ==> found.len() == 0
            &&& ctx.index matches Some(index) ==> {
                let sound = ty is AudioFile || ty is AudioStemList;
                let texture = ty is TextureFile || ty is TextureStem || ty is TextureSequenceStem;
                &&& sound && !any_file(index, AssetKind::Audio) ==> found.len() == 0
                &&& texture && !any_file(index, AssetKind::Texture) ==> found.len() == 0
                &&& !sound && !texture ==> found.len() == 0
                &&& same_ci(token.text@, "None"@) ==> found.len() == 0
            }
        }),
{
    lemma_bare_name(token.text@);
    assert(seq![token][0] == token);
    if let Some(index) = ctx.index {
        if has_kind(index, AssetKind::Audio) {
            assert(any_file(index, AssetKind::Audio));
        }
        if has_kind(index, AssetKind::Texture) {
            assert(any_file(index, AssetKind::Texture));
        }
        reveal_with_fuel(stem_diags, 2);
    }
}

/// A model of that name is known, in any ASCII case.
pub open spec fn known_model(index: &WorkspaceIndex, name: Seq<char>) -> bool {
    exists|i: int|
        0 <= i < index.model_rows().len() && same_ci(
            (#[trigger] index.model_rows()[i]).item.name,
            name,
        )
}

pub proof fn lemma_effective(rows: Seq<EntryView<ModelView>>, key: Seq<char>, i: int)
    ensures
        0 <= i < rows.len() && lower(rows[i].item.name) == key ==> effective_model(rows, key)
            is Some,
        effective_model(rows, key) matches Some(r) ==> rows.contains(r) && lower(r.item.name)
            == key,
    decreases rows.len(),
{
    if rows.len() > 0 {
        let front = rows.drop_last();
        lemma_effective(front, key, i);
        assert(rows.last() == rows[rows.len() - 1]);
        if 0 <= i < front.len() {
            assert(front[i] == rows[i]);
        }
        if let Some(r) = effective_model(front, key) {
            if front.contains(r) {
                let j = choose|j: int| 0 <= j < front.len() && front[j] == r;
                assert(rows[j] == r);
            }
        }
    }
}

/// A model is known exactly where one of that name, in any ASCII case, is indexed.
pub proof fn law_models_are_known_by_name(index: &WorkspaceIndex, name: Seq<char>)
    ensures
        model_known(index, name) == known_model(index, name),
{
    let rows = index.model_rows();
    if known_model(index, name) {
        let i = choose|i: int|
            0 <= i < rows.len() && same_ci((#[trigger] rows[i]).item.name, name);
        lemma_effective(rows, lower(name), i);
    }
    if model_known(index, name) {
        lemma_effective(rows, lower(name), 0);
        let r = effective_model(rows, lower(name))->Some_0;
        let j = choose|j: int| 0 <= j < rows.len() && rows[j] == r;
        assert(same_ci(rows[j].item.name, name));
    }
}

/// A known model of the list lacks the member.
pub open spec fn some_lacks(
    index: &WorkspaceIndex,
    models: Seq<Seq<char>>,
    value: Seq<char>,
    mode: Option<ModelMemberMode>,
) -> bool {
    exists|i: int|
        0 <= i < models.len() && known_model(index, #[trigger] models[i]) && !model_has_member(
            index,
            models[i],
            value,
            mode,
        )
}

/// A known model of the list has the member.
pub open spec fn some_has(
    index: &WorkspaceIndex,
    models: Seq<Seq<char>>,
    value: Seq<char>,
    mode: Option<ModelMemberMode>,
) -> bool {
    exists|i: int|
        0 <= i < models.len() && known_model(index, #[trigger] models[i]) && model_has_member(
            index,
            models[i],
            value,
            mode,
        )
}

proof fn lemma_lacking(
    index: &WorkspaceIndex,
    models: Seq<Seq<char>>,
    value: Seq<char>,
    mode: Option<ModelMemberMode>,
    from: int,
)
    requires
        0 <= from,
    ensures
        (models_without(index, models, value, mode, from).len() > 0) == exists|i: int|
            from <= i < models.len() && known_model(index, #[trigger] models[i])
                && !model_has_member(index, models[i], value, mode),
        some_model_has(index, models, value, mode, from) == exists|i: int|
            from <= i < models.len() && known_model(index, #[trigger] models[i])
                && model_has_member(index, models[i], value, mode),
    decreases models.len() - from,
{
    if from < models.len() {
        lemma_lacking(index, models, value, mode, from + 1);
        law_models_are_known_by_name(index, models[from]);
    }
}

/// A member is warned of where, as the check is compatible, no known model of those
/// it may belong to has it, and, as it is strict, where one of them lacks it; not
/// where none of them is known.
pub proof fn law_members_are_checked(
    index: &WorkspaceIndex,
    span: Span,
    models: Seq<Seq<char>>,
    value: Seq<char>,
    mode: Option<ModelMemberMode>,
)
    requires
        index.strictness is Compatible || index.strictness is Strict,
    ensures
        ({
            let found = member_diags(index, span, models, value, mode);
            let wrong = some_lacks(index, models, value, mode) && (index.strictness is Strict
                || !some_has(index, models, value, mode));
            if wrong {
                tells(found, Severity::Warning, "unknown-model-member"@, span)
            } else {
                found.len() == 0
            }
        }),
{
    lemma_lacking(index, models, value, mode, 0);
}

/// The names by which a member `Container.STEM01` is addressed: exactly, by the
/// whole name behind the dot; indexed, by the name without the `01`; both, where
/// either will do; and without a rule by the whole name, or by the name behind the dot
/// without the digits at its end.
pub proof fn law_members_are_addressed(
    container: Seq<char>,
    stem: Seq<char>,
    value: Seq<char>,
)
    requires
        stem.len() > 0,
        !is_digit(stem.last()),
        lacks(stem, '.'),
    ensures
        ({
            let short = stem + "01"@;
            let member = container + "."@ + short;
            &&& member_matches(member, value, Some(ModelMemberMode::Exact)) == same_ci(
                short,
                value,
            )
            &&& member_matches(member, value, Some(ModelMemberMode::Indexed)) == same_ci(
                stem,
                value,
            )
            &&& member_matches(member, value, Some(ModelMemberMode::ExactOrIndexed)) == (same_ci(
                short,
                value,
            ) || same_ci(stem, value))
            &&& member_matches(member, value, None) == (same_ci(member, value) || same_ci(
                stem,
                value,
            ))
        }),
{
    reveal_strlit(".");
    reveal_strlit("01");
    let short = stem + "01"@;
    let member = container + "."@ + short;
    assert(lacks(short, '.')) by {
        assert forall|i: int| 0 <= i < short.len() implies #[trigger] short[i] != '.' by {
            if i < stem.len() {
                assert(short[i] == stem[i]);
            }
        }
    }
    assert(member =~= around(container, '.', short));
    law_last_parts(container, '.', short, '.', '.');
    assert(crate::model::short_member(member) == short);
    assert("01"@.is_suffix_of(short)) by {
        assert(short.subrange(stem.len() as int, short.len() as int) =~= "01"@);
    }
    assert(short.take(short.len() - 2) =~= stem);
    assert(strip_suffix(short, "01"@) == Some(stem));
    law_digits_are_taken_off(stem, "01"@);
    assert(crate::model::short_member(short) == short);
    assert(crate::model::ini_name(short) == stem);
    lemma_any_one(short, value);
    lemma_any_one(stem, value);
    let two = seq![short] + seq![stem];
    assert(any_ci(two, value) == (same_ci(short, value) || same_ci(stem, value))) by {
        assert(two[0] == short && two[1] == stem);
    }
    assert(member_names(member, Some(ModelMemberMode::Exact)) == seq![short]);
    assert(member_names(member, Some(ModelMemberMode::Indexed)) == seq![stem]);
    assert(member_names(member, Some(ModelMemberMode::ExactOrIndexed)) == two);
    assert(member_names(member, None) == seq![stem]);
}

proof fn lemma_any_one(name: Seq<char>, value: Seq<char>)
    ensures
        any_ci(seq![name], value) == same_ci(name, value),
{
    assert(seq![name][0] == name);
}

/// The members of a model are those of every row of its name.
pub proof fn law_models_have_their_members(
    rows: Seq<EntryView<ModelView>>,
    name: Seq<char>,
    i: int,
    member: Seq<char>,
)
    requires
        0 <= i < rows.len(),
        same_ci(rows[i].item.name, name),
        rows[i].item.members.contains(member),
    ensures
        members_of(rows, lower(name)).contains(member),
    decreases rows.len(),
{
    let front = rows.drop_last();
    let rest = members_of(front, lower(name));
    if i < front.len() {
        assert(front[i] == rows[i]);
        law_models_have_their_members(front, name, i, member);
        if lower(rows.last().item.name) == lower(name) {
            crate::laws::lists::lemma_front(rest, rows.last().item.members, member);
        }
    } else {
        crate::laws::lists::lemma_behind(rest, rows.last().item.members, member);
    }
}

} // verus!
