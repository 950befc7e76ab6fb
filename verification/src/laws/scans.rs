//! What a scan plans, and what it takes from archives.

use vstd::prelude::*;

use super::lists::{lemma_behind, lemma_either, lemma_front};
use crate::analyzer::Analyzer;
use crate::cache::producer_message;
use crate::index::{AssetView, FileAsset};
use crate::order::sorted;
use crate::plan::{grown, planned, room_for, BoundedVec, FoundInput, PlanView};
use crate::scan::{
    archive_contribution, asset_of, entry_uri, law_assets_are_placed, own_contribution,
    own_contributions, unread_asset, unread_assets, ArchiveInput, ScanEntryView,
};
use crate::syntax::Parse;
use crate::w3d::lossy_text;

verus! {

proof fn lemma_unread(archive: Seq<char>, inputs: Seq<ArchiveInput>, from: int, i: int, a: AssetView)
    requires
        0 <= from <= i < inputs.len(),
        unread_asset(archive, inputs[i]).contains(a),
    ensures
        unread_assets(archive, inputs, from).contains(a),
    decreases i - from,
{
    let here = unread_asset(archive, inputs[from]);
    let rest = unread_assets(archive, inputs, from + 1);
    if from < i {
        lemma_unread(archive, inputs, from + 1, i, a);
        lemma_behind(here, rest, a);
    } else {
        lemma_front(here, rest, a);
    }
}

proof fn lemma_unread_back(
    archive: Seq<char>,
    inputs: Seq<ArchiveInput>,
    from: int,
    a: AssetView,
) -> (i: int)
    requires
        0 <= from,
        unread_assets(archive, inputs, from).contains(a),
    ensures
        from <= i < inputs.len(),
        unread_asset(archive, inputs[i]).contains(a),
    decreases inputs.len() - from,
{
    let here = unread_asset(archive, inputs[from]);
    let rest = unread_assets(archive, inputs, from + 1);
    lemma_either(here, rest, a);
    if here.contains(a) {
        from
    } else {
        lemma_unread_back(archive, inputs, from + 1, a)
    }
}

proof fn lemma_placed(assets: Seq<AssetView>, a: AssetView)
    ensures
        sorted::<FileAsset>(assets).contains(a) <==> assets.contains(a),
{
    broadcast use vstd::seq_lib::group_to_multiset_ensures;

    law_assets_are_placed(assets);
    let all = sorted::<FileAsset>(assets);
    assert(all.contains(a) <==> all.to_multiset().count(a) > 0);
    assert(assets.contains(a) <==> assets.to_multiset().count(a) > 0);
}

/// The last contribution of an archive holds its raw assets: those of its unread
/// entries whose names say that they are assets, and no others.
pub proof fn law_archived_assets_are_contributed(
    analyzer: &Analyzer,
    archive: Seq<char>,
    inputs: Seq<ArchiveInput>,
    trees: Seq<Option<(String, Parse)>>,
    i: int,
    a: AssetView,
)
    requires
        0 <= i < inputs.len(),
        inputs[i].content is Unread,
        asset_of(inputs[i].name@, entry_uri(archive, inputs[i].name@)) == Some(a),
    ensures
        ({
            let list = archive_contribution(analyzer, archive, inputs, trees);
            &&& list.len() > 0
            &&& list.last().file == entry_uri(archive, "__assets__"@)
            &&& list.last().assets.contains(a)
            &&& list.last().models.len() == 0
            &&& list.last().definitions.len() == 0
            &&& forall|b: AssetView| #[trigger]
                list.last().assets.contains(b) ==> exists|k: int|
                    0 <= k < inputs.len() && (#[trigger] inputs[k]).content is Unread && asset_of(
                        inputs[k].name@,
                        entry_uri(archive, inputs[k].name@),
                    ) == Some(b)
        }),
{
    let raw = unread_assets(archive, inputs, 0);
    assert(unread_asset(archive, inputs[i])[0] == a);
    lemma_unread(archive, inputs, 0, i, a);
    lemma_placed(raw, a);
    let list = archive_contribution(analyzer, archive, inputs, trees);
    assert(list.last().assets == sorted::<FileAsset>(raw));
    assert forall|b: AssetView| #[trigger] list.last().assets.contains(b) implies exists|k: int|
        0 <= k < inputs.len() && (#[trigger] inputs[k]).content is Unread && asset_of(
            inputs[k].name@,
            entry_uri(archive, inputs[k].name@),
        ) == Some(b) by {
        lemma_placed(raw, b);
        let k = lemma_unread_back(archive, inputs, 0, b);
        assert(inputs[k].content is Unread);
    }
}

proof fn lemma_own(
    analyzer: &Analyzer,
    archive: Seq<char>,
    inputs: Seq<ArchiveInput>,
    trees: Seq<Option<(String, Parse)>>,
    from: int,
    i: int,
    v: ScanEntryView,
)
    requires
        0 <= from <= i < inputs.len(),
        own_contribution(analyzer, archive, inputs[i], trees[i]).contains(v),
    ensures
        own_contributions(analyzer, archive, inputs, trees, from).contains(v),
    decreases i - from,
{
    let here = own_contribution(analyzer, archive, inputs[from], trees[from]);
    let rest = own_contributions(analyzer, archive, inputs, trees, from + 1);
    if from < i {
        lemma_own(analyzer, archive, inputs, trees, from + 1, i, v);
        lemma_behind(here, rest, v);
    } else {
        lemma_front(here, rest, v);
    }
}

/// An INI file in an archive contributes under its own URI, with its text and with the
/// definitions, references, tags and parents of its tree.
pub proof fn law_archived_documents_are_contributed(
    analyzer: &Analyzer,
    archive: Seq<char>,
    inputs: Seq<ArchiveInput>,
    trees: Seq<Option<(String, Parse)>>,
    i: int,
) -> (v: ScanEntryView)
    requires
        0 <= i < inputs.len(),
        inputs[i].content is Ini,
        trees[i] is Some,
    ensures
        archive_contribution(analyzer, archive, inputs, trees).contains(v),
        v.file == entry_uri(archive, inputs[i].name@),
        v.text == Some(lossy_text(inputs[i].content->Ini_bytes@)),
        v.definitions == crate::extract::definitions_from(analyzer, &trees[i]->Some_0.1, 0),
        v.references == crate::extract::references_from(analyzer, &trees[i]->Some_0.1, 0),
        v.tags == crate::extract::tags_from(&trees[i]->Some_0.1, 0),
        v.object_models == crate::extract::objects_from(analyzer, &trees[i]->Some_0.1, 0),
        v.object_parents == crate::extract::parents_from(&trees[i]->Some_0.1, 0),
        v.models.len() == 0,
        v.assets.len() == 0,
        v.animations.len() == 0,
{
    let own = own_contribution(analyzer, archive, inputs[i], trees[i]);
    let v = own[0];
    assert(own.contains(v));
    lemma_own(analyzer, archive, inputs, trees, 0, i, v);
    let all = own_contributions(analyzer, archive, inputs, trees, 0);
    let list = archive_contribution(analyzer, archive, inputs, trees);
    let j = choose|j: int| 0 <= j < all.len() && all[j] == v;
    assert(list[j] == v);
    v
}

/// What is planned stays planned: further paths come behind it, and a path met before
/// changes nothing.
pub proof fn law_plans_only_grow(
    plan: PlanView,
    found: Seq<FoundInput>,
    first: int,
    is_base: bool,
    i: int,
)
    requires
        0 <= i <= found.len(),
    ensures
        ({
            let then = planned(plan, found, first, is_base, i);
            &&& plan.inputs.len() <= then.inputs.len()
            &&& then.inputs.take(plan.inputs.len() as int) == plan.inputs
            &&& plan.seen.subset_of(then.seen)
            &&& plan.fingerprint_failures <= then.fingerprint_failures
            &&& forall|k: int|
                i <= k < found.len() ==> then.seen.contains((#[trigger] found[k]).key@)
        }),
    decreases found.len() - i,
{
    let then = planned(plan, found, first, is_base, i);
    if i < found.len() {
        let next = plan.with(
            (first + i) as usize,
            found[i].key@,
            found[i].fingerprint,
            is_base,
        );
        law_plans_only_grow(next, found, first, is_base, i + 1);
        assert(next.inputs.take(plan.inputs.len() as int) =~= plan.inputs);
        assert(then.inputs.take(plan.inputs.len() as int) =~= then.inputs.take(
            next.inputs.len() as int,
        ).take(plan.inputs.len() as int));
        assert(next.seen.contains(found[i].key@));
    } else {
        assert(then.inputs.take(plan.inputs.len() as int) =~= plan.inputs);
    }
}

/// A path with a fingerprint that was not met before becomes an input under its place,
/// base or not; one without is counted as a failure.
pub proof fn law_new_paths_are_planned(
    plan: PlanView,
    found: FoundInput,
    first: int,
    is_base: bool,
)
    requires
        !plan.seen.contains(found.key@),
        0 <= first <= usize::MAX,
    ensures
        ({
            let then = planned(plan, seq![found], first, is_base, 0);
            match found.fingerprint {
                Some(f) => {
                    &&& then.inputs.len() == plan.inputs.len() + 1
                    &&& then.inputs.last().id == first
                    &&& then.inputs.last().key == found.key@
                    &&& then.inputs.last().fingerprint == f
                    &&& then.inputs.last().is_base == is_base
                    &&& then.fingerprint_failures == plan.fingerprint_failures
                },
                None => {
                    &&& then.inputs == plan.inputs
                    &&& then.fingerprint_failures == plan.fingerprint_failures + 1
                },
            }
        }),
        planned(planned(plan, seq![found], first, is_base, 0), seq![found], first, is_base, 0)
            == planned(plan, seq![found], first, is_base, 0),
{
    reveal_with_fuel(planned, 3);
    assert(seq![found][0] == found);
}

/// A buffer grows to what is asked for and never beyond its limit; while the limit
/// allows it, its room at least doubles.
pub proof fn law_buffers_grow_within_their_limit(room: int, required: int, limit: int)
    requires
        0 <= room < required <= limit,
    ensures
        required <= grown(room, required, limit) <= limit,
        grown(room, required, limit) >= room * 2 || grown(room, required, limit) == limit,
        grown(room, required, limit) > 256 ==> grown(room, required, limit) <= room * 2 || grown(
            room,
            required,
            limit,
        ) == required || grown(room, required, limit) == limit,
{
}

/// A buffer that has the room, or whose limit is too low, keeps its room.
pub proof fn law_buffers_grow_when_they_must(buffer: BoundedVec, more: int)
    requires
        0 <= more,
        buffer.bytes@.len() <= buffer.room <= buffer.limit,
    ensures
        buffer.bytes@.len() + more <= buffer.room ==> room_for(buffer, more) == buffer.room,
        buffer.bytes@.len() + more > buffer.limit ==> room_for(buffer, more) == buffer.room,
        buffer.room < buffer.bytes@.len() + more <= buffer.limit ==> buffer.bytes@.len() + more
            <= room_for(buffer, more) <= buffer.limit,
{
}

/// The eight bytes from a place on as a number, the low byte first.
pub open spec fn number_at(b: Seq<u8>, at: int) -> int {
    b[at] + 256 * (b[at + 1] + 256 * (b[at + 2] + 256 * (b[at + 3] + 256 * (b[at + 4] + 256 * (b[at
        + 5] + 256 * (b[at + 6] + 256 * b[at + 7]))))))
}

proof fn lemma_digits(n: int, d: int)
    requires
        0 <= n,
        0 < d,
    ensures
        n / d == (n / d) % 256 + 256 * (n / (d * 256)),
{
    vstd::arithmetic::div_mod::lemma_div_denominator(n, d, 256);
    vstd::arithmetic::div_mod::lemma_fundamental_div_mod(n / d, 256);
}

/// The length of a schema stands before it in its producer's identity, in eight bytes
/// with the low one first.
pub proof fn law_producers_carry_the_length(schema: Seq<u8>)
    requires
        schema.len() <= u64::MAX,
    ensures
        number_at(producer_message(schema), 28) == schema.len(),
        producer_message(schema).skip(36) == schema,
{
    let n = schema.len() as int;
    let b = producer_message(schema);
    assert(b.skip(36) =~= schema);
    lemma_digits(n, 1);
    lemma_digits(n, 256);
    lemma_digits(n, 65536);
    lemma_digits(n, 16777216);
    lemma_digits(n, 4294967296);
    lemma_digits(n, 1099511627776);
    lemma_digits(n, 281474976710656);
    assert(n / 72057594037927936 < 256);
    let eight = crate::cache::le64(schema.len() as u64);
    assert(forall|k: int| 0 <= k < 8 ==> b[28 + k] == #[trigger] eight[k]);
    assert(b[28] == eight[0] && b[29] == eight[1] && b[30] == eight[2] && b[31] == eight[3]);
    assert(b[32] == eight[4] && b[33] == eight[5] && b[34] == eight[6] && b[35] == eight[7]);
}

} // verus!
