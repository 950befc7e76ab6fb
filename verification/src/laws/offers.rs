//! What is offered for files, prefixed values, lists and parts of models, and that it is
//! right where it is put in.

use vstd::prelude::*;

use crate::analyzer::Analyzer;
use crate::completion::{
    asset_items, asset_label, asset_labels, offered, offered_members, removable, stem, type_items,
    AssetLabel, CompletionView,
};
use crate::index::{
    asset_known, asset_names_of, members_of, AssetKind, AssetView, TagView, WorkspaceIndex,
};
use crate::laws::assets::known_file;
use crate::laws::completion::offers_ci;
use crate::laws::lists::{lemma_behind, lemma_either};
use crate::laws::text::{around, lacks, law_texts_part_at_the_last};
use crate::model::{any_ci, member_matches, member_names};
use crate::schema::{AudioExtension, ModelMemberMode, ValueType};
use crate::scopes::{extension_is, model_has_member, remove_module_diags, texture_found};
use crate::syntax::SyntaxToken;
use crate::table::EntryView;
use crate::text::{lower, rsplit_once, same_ci};
use crate::values::Ctx;

verus! {

proof fn lemma_names_known(rows: Seq<EntryView<AssetView>>, kind: AssetKind, name: Seq<char>) -> (i:
    int)
    requires
        asset_names_of(rows, kind).contains(name),
    ensures
        0 <= i < rows.len(),
        rows[i].item.kind == kind,
        rows[i].item.name == name,
    decreases rows.len(),
{
    let front = rows.drop_last();
    let rest = asset_names_of(front, kind);
    let all = asset_names_of(rows, kind);
    if rest.contains(name) {
        let i = lemma_names_known(front, kind, name);
        assert(front[i] == rows[i]);
        i
    } else {
        let last = rows.last().item.name;
        assert(all =~= rest + seq![last]);
        lemma_either(rest, seq![last], name);
        rows.len() - 1
    }
}

/// Every file of a kind is listed by its name, in some ASCII case, and nothing else is.
pub proof fn law_files_are_listed(rows: Seq<EntryView<AssetView>>, kind: AssetKind, i: int)
    requires
        0 <= i < rows.len(),
        rows[i].item.kind == kind,
    ensures
        any_ci(asset_names_of(rows, kind), rows[i].item.name),
        forall|n: Seq<char>| #[trigger]
            asset_names_of(rows, kind).contains(n) ==> exists|j: int|
                0 <= j < rows.len() && (#[trigger] rows[j]).item.kind == kind && rows[j].item.name
                    == n,
    decreases rows.len(),
{
    let front = rows.drop_last();
    let rest = asset_names_of(front, kind);
    let all = asset_names_of(rows, kind);
    let name = rows[i].item.name;
    assert forall|n: Seq<char>| #[trigger] all.contains(n) implies exists|j: int|
        0 <= j < rows.len() && (#[trigger] rows[j]).item.kind == kind && rows[j].item.name == n by {
        let j = lemma_names_known(rows, kind, n);
        assert(rows[j].item.kind == kind);
    }
    if i < front.len() {
        assert(front[i] == rows[i]);
        law_files_are_listed(front, kind, i);
        let j = choose|j: int| 0 <= j < rest.len() && same_ci(#[trigger] rest[j], name);
        assert(all[j] == rest[j]);
        assert(same_ci(all[j], name));
    } else if asset_known(front, kind, lower(name)) {
        let j = choose|j: int|
            0 <= j < front.len() && (#[trigger] front[j]).item.kind == kind && lower(
                front[j].item.name,
            ) == lower(name);
        law_files_are_listed(front, kind, j);
        let k = choose|k: int|
            0 <= k < rest.len() && same_ci(#[trigger] rest[k], front[j].item.name);
        assert(same_ci(all[k], name));
    } else {
        assert(all[rest.len() as int] == name);
        assert(same_ci(all[rest.len() as int], name));
    }
}

proof fn lemma_label_from(names: Seq<Seq<char>>, label: AssetLabel, k: int, text: Seq<char>) -> (i:
    int)
    requires
        asset_labels(names, label, k).contains(text),
    ensures
        0 <= i < names.len(),
        asset_label(label, names[i]) == Some(text),
    decreases k,
{
    let before = asset_labels(names, label, k - 1);
    if before.contains(text) {
        lemma_label_from(names, label, k - 1, text)
    } else {
        let t = asset_label(label, names[k - 1])->Some_0;
        assert(asset_labels(names, label, k) =~= before + seq![t]);
        lemma_either(before, seq![t], text);
        k - 1
    }
}

proof fn lemma_label_listed(
    names: Seq<Seq<char>>,
    label: AssetLabel,
    k: int,
    i: int,
    text: Seq<char>,
)
    requires
        0 <= i < k <= names.len(),
        asset_label(label, names[i]) == Some(text),
    ensures
        any_ci(asset_labels(names, label, k), text),
    decreases k,
{
    let before = asset_labels(names, label, k - 1);
    let all = asset_labels(names, label, k);
    if i == k - 1 {
        if any_ci(before, text) {
        } else {
            assert(all[before.len() as int] == text);
            assert(same_ci(all[before.len() as int], text));
        }
    } else {
        lemma_label_listed(names, label, k - 1, i, text);
        let j = choose|j: int| 0 <= j < before.len() && same_ci(#[trigger] before[j], text);
        assert(all[j] == before[j]);
        assert(same_ci(all[j], text));
    }
}

/// An offered item of a list of files stands for one of the files.
proof fn lemma_item_from(
    index: &WorkspaceIndex,
    kind: AssetKind,
    detail: Seq<char>,
    label: AssetLabel,
    i: int,
) -> (row: int)
    requires
        0 <= i < asset_items(Some(index), kind, detail, label).len(),
    ensures
        0 <= row < index.asset_rows().len(),
        index.asset_rows()[row].item.kind == kind,
        asset_label(label, index.asset_rows()[row].item.name) == Some(
            asset_items(Some(index), kind, detail, label)[i].label,
        ),
{
    let names = asset_names_of(index.asset_rows(), kind);
    let labels = asset_labels(names, label, names.len() as int);
    let text = asset_items(Some(index), kind, detail, label)[i].label;
    assert(labels[i] == text);
    assert(labels.contains(text));
    let n = lemma_label_from(names, label, names.len() as int, text);
    assert(names.contains(names[n]));
    lemma_names_known(index.asset_rows(), kind, names[n])
}

proof fn lemma_stem(name: Seq<char>, front: Seq<char>, ext: Seq<char>)
    requires
        rsplit_once(name, '.') == Some((front, ext)),
    ensures
        name == front + "."@ + ext,
        stem(name) == front,
{
    reveal_strlit(".");
    let at = crate::text::after_last(name, '.', '.');
    crate::text::lemma_after_last_bounds(name, '.', '.');
    lemma_dot(name);
    assert(name =~= front + "."@ + ext);
}

proof fn lemma_dot(s: Seq<char>)
    ensures
        ({
            let at = crate::text::after_last(s, '.', '.');
            &&& 0 <= at <= s.len()
            &&& at > 0 ==> s[at - 1] == '.'
        }),
    decreases s.len(),
{
    if s.len() > 0 && s.last() != '.' {
        lemma_dot(s.drop_last());
    }
}

/// The stem of a sound that is offered is one whose `.wav` is known.
pub proof fn law_offered_sound_stems_are_known(
    analyzer: &Analyzer,
    index: &WorkspaceIndex,
    i: int,
)
    requires
        0 <= i < type_items(analyzer, ValueType::AudioStemList, 0, None, None, Some(index)).len(),
    ensures
        known_file(
            index,
            AssetKind::Audio,
            type_items(
                analyzer,
                ValueType::AudioStemList,
                0,
                None,
                None,
                Some(index),
            )[i].label + ".wav"@,
        ),
{
    reveal_strlit(".");
    reveal_strlit(".wav");
    reveal_strlit("wav");
    let items = type_items(analyzer, ValueType::AudioStemList, 0, None, None, Some(index));
    let row = lemma_item_from(index, AssetKind::Audio, "sound stem"@, AssetLabel::WavStem, i);
    let name = index.asset_rows()[row].item.name;
    let (front, ext) = rsplit_once(name, '.')->Some_0;
    lemma_stem(name, front, ext);
    assert(".wav"@ =~= "."@ + "wav"@);
    lemma_same_tail(front, "."@, ext, "wav"@);
    assert(front + ".wav"@ =~= front + "."@ + "wav"@);
    assert(same_ci(index.asset_rows()[row].item.name, items[i].label + ".wav"@));
}

proof fn lemma_same_tail(front: Seq<char>, dot: Seq<char>, a: Seq<char>, b: Seq<char>)
    requires
        same_ci(a, b),
    ensures
        same_ci(front + dot + a, front + dot + b),
{
    assert(lower(front + dot + a) =~= lower(front + dot) + lower(a));
    assert(lower(front + dot + b) =~= lower(front + dot) + lower(b));
}

/// A sound that is offered for a field of `.wav` or of `.mp3` files is known, and of
/// that extension; every such sound is offered.
pub proof fn law_sounds_are_offered(
    analyzer: &Analyzer,
    index: &WorkspaceIndex,
    mp3: bool,
    i: int,
    row: int,
)
    requires
        0 <= row < index.asset_rows().len(),
    ensures
        ({
            let extension = if mp3 {
                AudioExtension::Mp3
            } else {
                AudioExtension::Wav
            };
            let wanted = if mp3 {
                "mp3"@
            } else {
                "wav"@
            };
            let items = type_items(
                analyzer,
                ValueType::AudioFile { extension },
                0,
                None,
                None,
                Some(index),
            );
            &&& 0 <= i < items.len() ==> known_file(index, AssetKind::Audio, items[i].label)
                && extension_is(items[i].label, wanted)
            &&& index.asset_rows()[row].item.kind == AssetKind::Audio && asset_names_of(
                index.asset_rows(),
                AssetKind::Audio,
            ).contains(index.asset_rows()[row].item.name) && extension_is(
                index.asset_rows()[row].item.name,
                wanted,
            ) ==> offers_ci(items, index.asset_rows()[row].item.name)
        }),
{
    let extension = if mp3 {
        AudioExtension::Mp3
    } else {
        AudioExtension::Wav
    };
    let label = AssetLabel::Audio(extension);
    let rows = index.asset_rows();
    let items = type_items(
        analyzer,
        ValueType::AudioFile { extension },
        0,
        None,
        None,
        Some(index),
    );
    if 0 <= i < items.len() {
        let r = lemma_item_from(index, AssetKind::Audio, "audio file"@, label, i);
        assert(rows[r].item.name == items[i].label);
        assert(rows[r].item.kind == AssetKind::Audio && same_ci(rows[r].item.name, items[i].label));
    }
    let names = asset_names_of(rows, AssetKind::Audio);
    let name = rows[row].item.name;
    if rows[row].item.kind == AssetKind::Audio && names.contains(name) && asset_label(label, name)
        == Some(name) {
        let n = choose|n: int| 0 <= n < names.len() && names[n] == name;
        lemma_label_listed(names, label, names.len() as int, n, name);
        let labels = asset_labels(names, label, names.len() as int);
        let j = choose|j: int| 0 <= j < labels.len() && same_ci(#[trigger] labels[j], name);
        assert(items[j].label == labels[j]);
    }
}

/// The textures of the index are `.tga` and `.dds` files.
pub open spec fn textures_spelled(index: &WorkspaceIndex) -> bool {
    forall|i: int|
        0 <= i < index.asset_rows().len() && (#[trigger] index.asset_rows()[i]).item.kind
            == AssetKind::Texture ==> extension_is(index.asset_rows()[i].item.name, "tga"@)
            || extension_is(index.asset_rows()[i].item.name, "dds"@)
}

/// A texture that is offered, by its file or by its stem, is found where it is put in.
pub proof fn law_offered_textures_are_found(
    analyzer: &Analyzer,
    index: &WorkspaceIndex,
    ty: ValueType,
    i: int,
)
    requires
        textures_spelled(index),
        ty is TextureFile || ty is TextureStem,
        0 <= i < type_items(analyzer, ty, 0, None, None, Some(index)).len(),
    ensures
        texture_found(index, ty, type_items(analyzer, ty, 0, None, None, Some(index))[i].label),
{
    reveal_strlit(".");
    reveal_strlit(".tga");
    reveal_strlit(".dds");
    reveal_strlit("tga");
    reveal_strlit("dds");
    let label = if ty is TextureFile {
        AssetLabel::TextureFile
    } else {
        AssetLabel::TextureStem
    };
    let items = type_items(analyzer, ty, 0, None, None, Some(index));
    let row = lemma_item_from(index, AssetKind::Texture, "texture"@, label, i);
    let rows = index.asset_rows();
    let name = rows[row].item.name;
    assert(extension_is(name, "tga"@) || extension_is(name, "dds"@));
    let (front, ext) = rsplit_once(name, '.')->Some_0;
    lemma_stem(name, front, ext);
    assert(".tga"@ =~= "."@ + "tga"@);
    assert(".dds"@ =~= "."@ + "dds"@);
    let tga = front + ".tga"@;
    let dds = front + ".dds"@;
    assert(tga =~= front + "."@ + "tga"@);
    assert(dds =~= front + "."@ + "dds"@);
    if same_ci(ext, "tga"@) {
        lemma_same_tail(front, "."@, ext, "tga"@);
        assert(rows[row].item.kind == AssetKind::Texture && lower(rows[row].item.name) == lower(
            tga,
        ));
    } else {
        lemma_same_tail(front, "."@, ext, "dds"@);
        assert(rows[row].item.kind == AssetKind::Texture && lower(rows[row].item.name) == lower(
            dds,
        ));
    }
    assert(lacks("tga"@, '.'));
    assert(tga =~= around(front, '.', "tga"@));
    law_texts_part_at_the_last(front, '.', "tga"@);
    assert(lower("tga"@)[0] == 't' && lower("dds"@)[0] == 'd');
    assert(!same_ci("tga"@, "dds"@));
}

/// What is put in for a prefixed value is the prefix, a colon, and what would be put in
/// without it; where the prefix stands already, nothing is added.
pub proof fn law_prefixes_are_put_in(
    analyzer: &Analyzer,
    ty: ValueType,
    current: Option<Seq<char>>,
    index: Option<&WorkspaceIndex>,
    i: int,
)
    requires
        ty is Prefixed,
    ensures
        ({
            let prefix = ty->prefix@;
            let inner = type_items(analyzer, *ty->Prefixed_value_type, 0, current, None, index);
            let items = type_items(analyzer, ty, 0, current, None, index);
            let typed = current matches Some(t) && exists|rest: Seq<char>, actual: Seq<char>|
                t == #[trigger] around(actual, ':', rest) && lacks(actual, ':') && same_ci(
                    actual,
                    prefix,
                );
            &&& typed ==> items == inner
            &&& current is None && 0 <= i < inner.len() && inner[i].insert is None ==> items.len()
                == inner.len() && items[i].label == inner[i].label && items[i].insert == Some(
                prefix + ":"@ + inner[i].label,
            )
        }),
{
    let prefix = ty->prefix@;
    if let Some(t) = current {
        if exists|rest: Seq<char>, actual: Seq<char>|
            t == #[trigger] around(actual, ':', rest) && lacks(actual, ':') && same_ci(
                actual,
                prefix,
            ) {
            let (rest, actual) = choose|rest: Seq<char>, actual: Seq<char>|
                t == #[trigger] around(actual, ':', rest) && lacks(actual, ':') && same_ci(
                    actual,
                    prefix,
                );
            crate::laws::text::law_texts_part_at_the_first(actual, ':', rest);
        }
    }
}

/// In a list of shapes each place is offered what its own shape takes.
pub proof fn law_places_of_a_list_are_offered_their_shape(
    analyzer: &Analyzer,
    ty: ValueType,
    i: int,
    current: Option<Seq<char>>,
    first: Option<Seq<char>>,
    index: Option<&WorkspaceIndex>,
    item: CompletionView,
)
    requires
        ty matches ValueType::TokenList { tokens } && 0 <= i < tokens@.len(),
        type_items(analyzer, ty->tokens@[i], 0, current, first, index).contains(item),
    ensures
        type_items(analyzer, ty, i, current, first, index).contains(item),
        i > 0 ==> type_items(analyzer, ty, i, current, first, index) == type_items(
            analyzer,
            ty->tokens@[i],
            0,
            current,
            first,
            index,
        ),
{
    let inner = type_items(analyzer, ty->tokens@[i], 0, current, first, index);
    if let Some(snippet) = crate::completion::snippet_of(ty) {
        if i == 0 {
            lemma_behind(
                seq![crate::completion::sequence_item(ty->tokens@.len(), snippet)],
                inner,
                item,
            );
        }
    }
}

proof fn lemma_offer_from(
    members: Seq<Seq<char>>,
    mode: Option<ModelMemberMode>,
    from: int,
    offer: (Seq<char>, bool),
) -> (k: int)
    requires
        0 <= from,
        offered_members(members, mode, from).contains(offer),
    ensures
        from <= k < members.len(),
        member_names(members[k], mode).contains(offer.0),
    decreases members.len() - from,
{
    let names = member_names(members[from], mode);
    let here = offered(names, crate::model::short_member(members[from]), mode is Some);
    let rest = offered_members(members, mode, from + 1);
    lemma_either(here, rest, offer);
    if rest.contains(offer) {
        lemma_offer_from(members, mode, from + 1, offer)
    } else {
        let i = choose|i: int| 0 <= i < here.len() && here[i] == offer;
        assert(names[i] == offer.0);
        from
    }
}

/// A part of a model that is offered is one that the model has, as the check sees it.
pub proof fn law_offered_members_are_known(
    index: &WorkspaceIndex,
    model: Seq<char>,
    mode: Option<ModelMemberMode>,
    offer: (Seq<char>, bool),
)
    requires
        offered_members(members_of(index.model_rows(), lower(model)), mode, 0).contains(offer),
    ensures
        model_has_member(index, model, offer.0, mode),
{
    let members = members_of(index.model_rows(), lower(model));
    let k = lemma_offer_from(members, mode, 0, offer);
    let names = member_names(members[k], mode);
    let j = choose|j: int| 0 <= j < names.len() && names[j] == offer.0;
    assert(same_ci(names[j], offer.0));
    assert(any_ci(names, offer.0));
    assert(member_matches(members[k], offer.0, mode));
}

/// A tag that is offered to be removed is no unknown one where it is put in.
pub proof fn law_offered_tags_are_known(
    ctx: Ctx<'_>,
    scope: int,
    key: Seq<char>,
    token: SyntaxToken,
    t: TagView,
)
    requires
        removable(
            ctx.parse,
            scope,
            key,
            ctx.index,
            crate::index::opt_str(ctx.file),
            token.span.start,
        ).contains(t),
        token.text@ == t.name,
        crate::laws::values::bare(t.name),
    ensures
        remove_module_diags(ctx, seq![token], ctx.parse.nodes@[scope].name).len() == 0,
{
    crate::laws::values::law_quotes_are_taken_off(t.name);
    assert(seq![token][0] == token);
    let tags = removable(
        ctx.parse,
        scope,
        key,
        ctx.index,
        crate::index::opt_str(ctx.file),
        token.span.start,
    );
    let i = choose|i: int| 0 <= i < tags.len() && tags[i] == t;
    assert(same_ci(tags[i].name, t.name));
}

} // verus!
