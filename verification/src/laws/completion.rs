//! What is offered at the cursor, and that it is right there.

use vstd::prelude::*;

use crate::analyzer::{builtin_list, Analyzer};
use crate::completion::{
    accepted, items_at, member_items, module_items, next_tag, reference_items, type_items,
    CompletionView,
};
use crate::index::{
    def_known, model_names_from, model_superseded, names_of, DefView, ModelView, WorkspaceIndex,
};
use crate::laws::values::{
    bare, law_choices_are_checked, law_references_are_checked, law_truth_is_yes_or_no,
};
use crate::model::{fits, scope_of};
use crate::position::PosView;
use crate::schema::{BuiltinDef, ModuleSlot, ModuleType, RefKind, ValueMember, ValueType};
use crate::syntax::{Parse, SyntaxToken};
use crate::table::EntryView;
use crate::text::{lower, same_ci, texts};
use crate::values::{value_diags, Ctx};

verus! {

/// Whether some item has that label.
pub open spec fn offers(items: Seq<CompletionView>, label: Seq<char>) -> bool {
    exists|i: int| 0 <= i < items.len() && (#[trigger] items[i]).label == label
}

/// Whether some item has that label, up to ASCII case.
pub open spec fn offers_ci(items: Seq<CompletionView>, label: Seq<char>) -> bool {
    exists|i: int| 0 <= i < items.len() && same_ci((#[trigger] items[i]).label, label)
}

/// Whether a module implements one of the interfaces in a list.
pub open spec fn implements(module: ModuleType, interfaces: Seq<Seq<char>>) -> bool {
    exists|i: int, j: int|
        0 <= i < module.interfaces@.len() && 0 <= j < interfaces.len() && (
        #[trigger] module.interfaces@[i])@ == #[trigger] interfaces[j]
}

proof fn lemma_accepted(module: ModuleType, accepts: Seq<Seq<char>>)
    requires
        accepts.len() > 0,
    ensures
        accepted(module, accepts) == implements(module, accepts),
{
    if accepted(module, accepts) {
        let i = choose|i: int|
            0 <= i < module.interfaces@.len() && accepts.contains(
                (#[trigger] module.interfaces@[i])@,
            );
        let j = choose|j: int| 0 <= j < accepts.len() && accepts[j] == module.interfaces@[i]@;
        assert(module.interfaces@[i]@ == accepts[j]);
    }
    if implements(module, accepts) {
        let (i, j) = choose|i: int, j: int|
            0 <= i < module.interfaces@.len() && 0 <= j < accepts.len() && (
            #[trigger] module.interfaces@[i])@ == #[trigger] accepts[j];
        assert(accepts.contains(module.interfaces@[i]@));
    }
}

proof fn lemma_module_items(
    modules: Seq<ModuleType>,
    accepts: Seq<Seq<char>>,
    tag: Seq<char>,
    k: int,
)
    requires
        0 <= k,
    ensures
        forall|i: int|
            0 <= i < module_items(modules, accepts, tag, k).len() ==> {
                let item = #[trigger] module_items(modules, accepts, tag, k)[i];
                &&& item.kind is Module
                &&& exists|m: int|
                    k <= m < modules.len() && (#[trigger] modules[m]).name@ == item.label && (
                    accepts.len() == 0 || implements(modules[m], accepts))
            },
        forall|m: int|
            k <= m < modules.len() && (accepts.len() == 0 || implements(modules[m], accepts))
                ==> offers(
                module_items(modules, accepts, tag, k),
                (#[trigger] modules[m]).name@,
            ),
    decreases modules.len() - k,
{
    if k < modules.len() {
        lemma_module_items(modules, accepts, tag, k + 1);
        if accepts.len() > 0 {
            lemma_accepted(modules[k], accepts);
        }
        let rest = module_items(modules, accepts, tag, k + 1);
        let all = module_items(modules, accepts, tag, k);
        let n = all.len() - rest.len();
        assert forall|i: int| 0 <= i < all.len() implies {
            let item = #[trigger] all[i];
            &&& item.kind is Module
            &&& exists|m: int|
                k <= m < modules.len() && (#[trigger] modules[m]).name@ == item.label && (
                accepts.len() == 0 || implements(modules[m], accepts))
        } by {
            if i >= n {
                assert(all[i] == rest[i - n]);
                let item = rest[i - n];
                let m = choose|m: int|
                    k + 1 <= m < modules.len() && (#[trigger] modules[m]).name@ == item.label && (
                    accepts.len() == 0 || implements(modules[m], accepts));
                assert(modules[m].name@ == all[i].label);
            } else {
                assert(modules[k].name@ == all[i].label);
            }
        }
        assert forall|m: int|
            k <= m < modules.len() && (accepts.len() == 0 || implements(
                modules[m],
                accepts,
            )) implies offers(all, (#[trigger] modules[m]).name@) by {
            if m > k {
                let i = choose|i: int|
                    0 <= i < rest.len() && (#[trigger] rest[i]).label == modules[m].name@;
                assert(all[i + n].label == modules[m].name@);
            } else {
                assert(all[0].label == modules[k].name@);
            }
        }
    }
}

/// After the `=` of a module slot, what is offered are the module types that
/// implement one of the interfaces that the slot accepts, all of them and no
/// others; a slot that names no interface takes every module type.
pub proof fn law_slots_offer_what_they_accept(
    analyzer: &Analyzer,
    parse: &Parse,
    scope: int,
    accepts: Seq<Seq<char>>,
    offset: u32,
    index: Option<&WorkspaceIndex>,
    file: Option<Seq<char>>,
)
    ensures
        ({
            let items = items_at(
                analyzer,
                parse,
                PosView::ModuleName { scope, accepts },
                offset,
                index,
                file,
            );
            let modules = analyzer.schema.modules@;
            &&& forall|i: int|
                0 <= i < items.len() ==> {
                    let item = #[trigger] items[i];
                    &&& item.kind is Module
                    &&& exists|m: int|
                        0 <= m < modules.len() && (#[trigger] modules[m]).name@ == item.label && (
                        accepts.len() == 0 || implements(modules[m], accepts))
                }
            &&& forall|m: int|
                0 <= m < modules.len() && (accepts.len() == 0 || implements(modules[m], accepts))
                    ==> offers(items, (#[trigger] modules[m]).name@)
        }),
{
    lemma_module_items(
        analyzer.schema.modules@,
        accepts,
        next_tag(analyzer, parse, scope),
        0,
    );
}

/// A module fits a slot exactly where it implements one of the interfaces that
/// the slot accepts, which is where it is offered there.
pub proof fn law_offered_modules_fit_their_slot(module: ModuleType, slot: ModuleSlot)
    ensures
        fits(module, slot) == implements(module, texts(slot.accepts@)),
        slot.accepts@.len() > 0 ==> accepted(module, texts(slot.accepts@)) == fits(module, slot),
{
    let accepts = texts(slot.accepts@);
    if accepts.len() > 0 {
        lemma_accepted(module, accepts);
    }
}

/// At the top of a file every block that the schema knows is offered, and nothing
/// else.
pub proof fn law_top_level_offers_the_blocks(
    analyzer: &Analyzer,
    parse: &Parse,
    offset: u32,
    index: Option<&WorkspaceIndex>,
    file: Option<Seq<char>>,
)
    ensures
        ({
            let items = items_at(analyzer, parse, PosView::TopLevel, offset, index, file);
            &&& items.len() == analyzer.schema.blocks@.len()
            &&& forall|i: int|
                0 <= i < items.len() ==> (#[trigger] items[i]).label
                    == analyzer.schema.blocks@[i].name@ && items[i].kind is Block
        }),
{
}

/// Inside a scope every field, module slot and sub-block that its schema knows is
/// offered, and nothing else.
pub proof fn law_scopes_offer_their_keywords(
    analyzer: &Analyzer,
    parse: &Parse,
    scope: int,
    offset: u32,
    index: Option<&WorkspaceIndex>,
    file: Option<Seq<char>>,
)
    ensures
        ({
            let items = items_at(analyzer, parse, PosView::FieldKey(scope), offset, index, file);
            let schema = scope_of(analyzer, parse, scope);
            let f = schema.field_list().len();
            let s = schema.slot_list().len();
            &&& items.len() == f + s + schema.sub_list().len()
            &&& forall|i: int|
                0 <= i < items.len() ==> (#[trigger] items[i]).label == if i < f {
                    schema.field_list()[i].name@
                } else if i < f + s {
                    schema.slot_list()[i - f].keyword@
                } else {
                    schema.sub_list()[i - f - s].keyword@
                }
        }),
{
}

proof fn lemma_member_items(
    members: Seq<ValueMember>,
    set: Seq<char>,
    k: int,
)
    requires
        0 <= k <= members.len(),
    ensures
        member_items(members, set, k).len() == members.len() - k,
        forall|i: int|
            0 <= i < members.len() - k ==> (#[trigger] member_items(members, set, k)[i]).label
                == members[k + i].name@,
    decreases members.len() - k,
{
    if k < members.len() {
        lemma_member_items(members, set, k + 1);
        let rest = member_items(members, set, k + 1);
        let all = member_items(members, set, k);
        assert forall|i: int| 0 <= i < members.len() - k implies (#[trigger] all[i]).label
            == members[k + i].name@ by {
            if i > 0 {
                assert(all[i] == rest[i - 1]);
            }
        }
    }
}

/// Where a value is out of a set, its members are offered, all of them and in
/// order; a truth value offers `Yes` and `No`.
pub proof fn law_choices_are_offered(
    analyzer: &Analyzer,
    ty: ValueType,
    current: Option<Seq<char>>,
    first: Option<Seq<char>>,
    index: Option<&WorkspaceIndex>,
    value_index: int,
)
    ensures
        (ty matches ValueType::Enum { value_set } ==> choices_of(
            analyzer,
            value_set@,
            type_items(analyzer, ty, value_index, current, first, index),
        )),
        (ty matches ValueType::BitFlags { value_set } ==> choices_of(
            analyzer,
            value_set@,
            type_items(analyzer, ty, value_index, current, first, index),
        )),
        ty is Bool ==> ({
            let items = type_items(analyzer, ty, value_index, current, first, index);
            items.len() == 2 && items[0].label == "Yes"@ && items[1].label == "No"@
        }),
{
    match ty {
        ValueType::Enum { value_set } => {
            if let Some(set) = analyzer.value_set_of(value_set@) {
                lemma_member_items(set.members@, value_set@, 0);
            }
        },
        ValueType::BitFlags { value_set } => {
            if let Some(set) = analyzer.value_set_of(value_set@) {
                lemma_member_items(set.members@, value_set@, 0);
            }
        },
        _ => {},
    }
}

/// The items are the members of a set, in order.
pub open spec fn choices_of(
    analyzer: &Analyzer,
    set: Seq<char>,
    items: Seq<CompletionView>,
) -> bool {
    match analyzer.value_set_of(set) {
        Some(v) => items.len() == v.members@.len() && forall|i: int|
            0 <= i < items.len() ==> (#[trigger] items[i]).label == v.members@[i].name@,
        None => items.len() == 0,
    }
}

/// What is offered for a truth value or a choice is right there.
pub proof fn law_offered_choices_are_right(
    ctx: Ctx<'_>,
    key: Option<SyntaxToken>,
    token: SyntaxToken,
    ty: ValueType,
    current: Option<Seq<char>>,
    first: Option<Seq<char>>,
    i: int,
)
    requires
        ty is Bool || ty is Enum,
        0 <= i < type_items(ctx.analyzer, ty, 0, current, first, ctx.index).len(),
        token.text@ == type_items(ctx.analyzer, ty, 0, current, first, ctx.index)[i].label,
    ensures
        value_diags(ctx, key, seq![token], ty).len() == 0,
{
    law_choices_are_offered(ctx.analyzer, ty, current, first, ctx.index, 0);
    match ty {
        ValueType::Bool => {
            reveal_strlit("Yes");
            reveal_strlit("No");
            law_truth_is_yes_or_no(ctx, key, token);
        },
        ValueType::Enum { value_set } => {
            let set = ctx.analyzer.value_set_of(value_set@)->Some_0;
            assert(same_ci(set.members@[i].name@, token.text@));
            law_choices_are_checked(ctx, key, token, ty, set);
        },
        _ => {},
    }
}

/// The row that a name in the list of names comes from.
proof fn lemma_name_row(
    rows: Seq<EntryView<DefView>>,
    kind: RefKind,
    n: int,
) -> (i: int)
    requires
        0 <= n < names_of(rows, kind).len(),
    ensures
        0 <= i < rows.len(),
        rows[i].item.kind == kind,
        rows[i].item.display == names_of(rows, kind)[n],
    decreases rows.len(),
{
    let front = rows.drop_last();
    let rest = names_of(front, kind);
    if n < rest.len() {
        let i = lemma_name_row(front, kind, n);
        assert(rows[i] == front[i]);
        i
    } else {
        rows.len() - 1
    }
}

/// The place in the list of names that stands for a row: it comes from a row of
/// the same kind and key.
proof fn lemma_row_name(
    rows: Seq<EntryView<DefView>>,
    kind: RefKind,
    i: int,
) -> (found: (int, int))
    requires
        0 <= i < rows.len(),
        rows[i].item.kind == kind,
    ensures
        0 <= found.0 < names_of(rows, kind).len(),
        0 <= found.1 < rows.len(),
        rows[found.1].item.key == rows[i].item.key,
        rows[found.1].item.display == names_of(rows, kind)[found.0],
    decreases rows.len(),
{
    let front = rows.drop_last();
    let last = rows.len() - 1;
    if i < last {
        let found = lemma_row_name(front, kind, i);
        assert(rows[found.1] == front[found.1] && rows[i] == front[i]);
        found
    } else if def_known(front, kind, rows[last].item.key) {
        let h = choose|h: int|
            0 <= h < front.len() && (#[trigger] front[h]).item.kind == kind && front[h].item.key
                == rows[last].item.key;
        let found = lemma_row_name(front, kind, h);
        assert(rows[found.1] == front[found.1]);
        found
    } else {
        (names_of(front, kind).len() as int, last)
    }
}

proof fn lemma_builtin_row(
    builtins: Seq<BuiltinDef>,
    kind: RefKind,
    n: int,
) -> (i: int)
    requires
        0 <= n < builtin_list(builtins, kind).len(),
    ensures
        0 <= i < builtins.len(),
        builtins[i].ref_kind == kind,
        builtins[i].name@ == builtin_list(builtins, kind)[n],
    decreases builtins.len(),
{
    let front = builtins.drop_last();
    if n < builtin_list(front, kind).len() {
        lemma_builtin_row(front, kind, n)
    } else {
        builtins.len() - 1
    }
}

proof fn lemma_row_builtin(
    builtins: Seq<BuiltinDef>,
    kind: RefKind,
    i: int,
) -> (n: int)
    requires
        0 <= i < builtins.len(),
        builtins[i].ref_kind == kind,
    ensures
        0 <= n < builtin_list(builtins, kind).len(),
        builtins[i].name@ == builtin_list(builtins, kind)[n],
    decreases builtins.len(),
{
    let front = builtins.drop_last();
    if i < builtins.len() - 1 {
        assert(front[i] == builtins[i]);
        lemma_row_builtin(front, kind, i)
    } else {
        builtin_list(front, kind).len() as int
    }
}

/// The table shows a definition under a spelling of its name.
pub open spec fn shown_as_spelled(index: &WorkspaceIndex) -> bool {
    forall|i: int|
        0 <= i < index.def_rows().len() ==> lower((#[trigger] index.def_rows()[i]).item.display)
            == index.def_rows()[i].item.key
}

/// Where a definition of a kind is to be named, every name of that kind is
/// offered, those of the workspace and those that the engine makes; and every
/// offered name is defined.
pub proof fn law_definitions_are_offered(
    analyzer: &Analyzer,
    ty: ValueType,
    kind: RefKind,
    value_index: int,
    current: Option<Seq<char>>,
    first: Option<Seq<char>>,
    index: &WorkspaceIndex,
)
    requires
        ty == (ValueType::Reference { ref_kind: kind }) || ty == (ValueType::ReferenceList {
            ref_kind: kind,
        }),
        shown_as_spelled(index),
    ensures
        ({
            let items = type_items(analyzer, ty, value_index, current, first, Some(index));
            let rows = index.def_rows();
            let builtins = analyzer.schema.builtins@;
            &&& forall|i: int|
                0 <= i < rows.len() && (#[trigger] rows[i]).item.kind == kind ==> offers_ci(
                    items,
                    rows[i].item.key,
                )
            &&& forall|i: int|
                0 <= i < builtins.len() && (#[trigger] builtins[i]).ref_kind == kind ==> offers(
                    items,
                    builtins[i].name@,
                )
            &&& forall|n: int|
                0 <= n < items.len() ==> known_name(
                    analyzer,
                    index,
                    kind,
                    (#[trigger] items[n]).label,
                ) && items[n].kind is Reference
        }),
{
    let items = type_items(analyzer, ty, value_index, current, first, Some(index));
    let rows = index.def_rows();
    let builtins = analyzer.schema.builtins@;
    let names = names_of(rows, kind);
    let made = builtin_list(builtins, kind);
    assert(items == reference_items(analyzer, kind, Some(index)));
    assert(items.len() == names.len() + made.len());
    assert forall|i: int| 0 <= i < rows.len() && (#[trigger] rows[i]).item.kind
        == kind implies offers_ci(items, rows[i].item.key) by {
        let (n, j) = lemma_row_name(rows, kind, i);
        assert(items[n].label == names[n]);
        lemma_lower_twice(rows[j].item.display);
        assert(same_ci(items[n].label, rows[i].item.key));
    }
    assert forall|i: int| 0 <= i < builtins.len() && (#[trigger] builtins[i]).ref_kind
        == kind implies offers(items, builtins[i].name@) by {
        let n = lemma_row_builtin(builtins, kind, i);
        assert(items[names.len() + n].label == made[n]);
    }
    assert forall|n: int| 0 <= n < items.len() implies known_name(
        analyzer,
        index,
        kind,
        (#[trigger] items[n]).label,
    ) && items[n].kind is Reference by {
        if n < names.len() {
            assert(items[n].label == names[n]);
            let i = lemma_name_row(rows, kind, n);
            assert(rows[i].item.key == lower(items[n].label));
        } else {
            assert(items[n].label == made[n - names.len()]);
            let i = lemma_builtin_row(builtins, kind, n - names.len());
            assert(same_ci(builtins[i].name@, items[n].label));
        }
    }
}

/// A name that the workspace or the engine defines.
pub open spec fn known_name(
    analyzer: &Analyzer,
    index: &WorkspaceIndex,
    kind: RefKind,
    name: Seq<char>,
) -> bool {
    ||| analyzer.builtin(kind, name)
    ||| exists|i: int|
        0 <= i < index.def_rows().len() && (#[trigger] index.def_rows()[i]).item.kind == kind
            && index.def_rows()[i].item.key == lower(name)
}

proof fn lemma_lower_twice(s: Seq<char>)
    ensures
        lower(lower(s)) == lower(s),
{
    assert(lower(lower(s)) =~= lower(s));
}

/// A name that is offered for a reference is not warned of there.
pub proof fn law_offered_references_resolve(
    ctx: Ctx<'_>,
    key: Option<SyntaxToken>,
    token: SyntaxToken,
    kind: RefKind,
    current: Option<Seq<char>>,
    first: Option<Seq<char>>,
    i: int,
)
    requires
        ctx.index matches Some(index) && shown_as_spelled(index),
        ({
            let items = type_items(
                ctx.analyzer,
                ValueType::Reference { ref_kind: kind },
                0,
                current,
                first,
                ctx.index,
            );
            0 <= i < items.len() && token.text@ == items[i].label
        }),
        bare(token.text@),
    ensures
        value_diags(ctx, key, seq![token], ValueType::Reference { ref_kind: kind }).len() == 0,
{
    let ty = ValueType::Reference { ref_kind: kind };
    let index = ctx.index->Some_0;
    law_definitions_are_offered(ctx.analyzer, ty, kind, 0, current, first, index);
    law_references_are_checked(ctx, key, token, ty, kind);
}

proof fn lemma_model_names(
    rows: Seq<EntryView<ModelView>>,
    k: int,
    i: int,
)
    requires
        0 <= k <= i < rows.len(),
    ensures
        exists|n: int|
            0 <= n < model_names_from(rows, k).len() && same_ci(
                #[trigger] model_names_from(rows, k)[n],
                rows[i].item.name,
            ),
    decreases rows.len() - k, rows.len() - i,
{
    let all = model_names_from(rows, k);
    if model_superseded(rows, i) {
        let j = choose|j: int|
            i < j < rows.len() && lower((#[trigger] rows[j]).item.name) == lower(
                rows[i].item.name,
            );
        lemma_model_names(rows, k, j);
        let n = choose|n: int|
            0 <= n < all.len() && same_ci(#[trigger] all[n], rows[j].item.name);
        assert(same_ci(all[n], rows[i].item.name));
    } else if k < i {
        lemma_model_names(rows, k + 1, i);
        let rest = model_names_from(rows, k + 1);
        let n = choose|n: int|
            0 <= n < rest.len() && same_ci(#[trigger] rest[n], rows[i].item.name);
        assert(all[n + all.len() - rest.len()] == rest[n]);
    } else {
        assert(all[0] == rows[i].item.name);
    }
}

/// Every model that a file offers is among the model names of the index, in some
/// spelling.
pub proof fn law_models_are_named(index: &WorkspaceIndex, i: int)
    requires
        0 <= i < index.model_rows().len(),
    ensures
        exists|n: int|
            0 <= n < model_names_from(index.model_rows(), 0).len() && same_ci(
                #[trigger] model_names_from(index.model_rows(), 0)[n],
                index.model_rows()[i].item.name,
            ),
{
    lemma_model_names(index.model_rows(), 0, i);
}

} // verus!
