//! What a completion puts into the text.

use vstd::prelude::*;

use super::numbers::law_decimal_fractions_are_reals;
use super::values::{
    law_integers_are_checked, law_percentages_are_checked, law_reals_are_checked,
    law_truth_is_yes_or_no, one_real,
};
use crate::completion::{
    block_item, field_item, module_item, placeholder_of, sequence_of, slot_item, snippet_of,
    sub_item, tab_stop,
};
use crate::numbers::signed_decimal;
use crate::schema::{BlockType, Field, ModuleSlot, ModuleType, SubBlock, ValueType};
use crate::syntax::SyntaxToken;
use crate::text::decimal;
use crate::values::{value_diags, Ctx};

verus! {

proof fn lemma_starts(a: Seq<char>, b: Seq<char>)
    ensures
        a.is_prefix_of(a + b),
        b.is_suffix_of(a + b),
{
}

/// What an item of a scope puts in starts with what the item is called; with a block,
/// a sub-block or a module its end comes too, and the cursor is left before it.
pub proof fn law_items_put_in_what_they_are_called(
    block: BlockType,
    field: Field,
    sub: SubBlock,
    slot: ModuleSlot,
    module: ModuleType,
    tag: Seq<char>,
)
    ensures
        block_item(block).label == block.name@,
        block.terminated <==> block_item(block).insert is Some,
        block_item(block).insert matches Some(s) ==> block.name@.is_prefix_of(s)
            && "\n\t$0\nEnd"@.is_suffix_of(s),
        field_item(field).label == field.name@,
        field_item(field).insert matches Some(s) ==> (field.name@ + " = "@).is_prefix_of(s),
        snippet_of(field.value_type) is Some <==> field_item(field).insert is Some,
        sub_item(sub).label == sub.keyword@,
        sub_item(sub).insert matches Some(s) && sub.keyword@.is_prefix_of(s)
            && "\n\t$0\nEnd"@.is_suffix_of(s),
        slot_item(slot).label == slot.keyword@,
        slot_item(slot).insert == Some(slot.keyword@ + " = $0"@),
        module_item(module, tag).label == module.name@,
        module_item(module, tag).insert matches Some(s) && module.name@.is_prefix_of(s)
            && "\n\t$0\nEnd"@.is_suffix_of(s),
{
    reveal_strlit("\n\t$0\nEnd");
    reveal_strlit(" ${1:Name}\n\t$0\nEnd");
    reveal_strlit("}\n\t$0\nEnd");
    let end = "\n\t$0\nEnd"@;
    let named = " ${1:Name}\n\t$0\nEnd"@;
    let closed = "}\n\t$0\nEnd"@;
    assert(named =~= named.take(named.len() - end.len()) + end);
    assert(closed =~= closed.take(closed.len() - end.len()) + end);
    if let Some(s) = block_item(block).insert {
        if block.named {
            assert(s =~= (block.name@ + named.take(named.len() - end.len())) + end);
        }
    }
    if let Some(value) = snippet_of(field.value_type) {
        lemma_starts(field.name@ + " = "@, value);
    }
    if let Some(s) = sub_item(sub).insert {
        if sub.argument_type is Some {
            let front = s.take(s.len() - closed.len());
            assert(s =~= front + closed);
            assert(s =~= (front + closed.take(closed.len() - end.len())) + end);
        }
    }
    if let Some(s) = module_item(module, tag).insert {
        let front = s.take(s.len() - closed.len());
        assert(s =~= front + closed);
        assert(s =~= (front + closed.take(closed.len() - end.len())) + end);
    }
}

/// A text with one tab stop of that number at its end.
pub open spec fn ends_in_stop(s: Seq<char>, n: nat, front: Seq<char>, text: Seq<char>) -> bool {
    s == front + tab_stop(n, text)
}

/// The placeholder of a token is a tab stop of the token's number, behind the prefixes
/// that the token is written with.
pub proof fn law_placeholders_are_numbered(ty: ValueType, n: nat) -> (found: (Seq<char>, Seq<char>))
    ensures
        ends_in_stop(placeholder_of(ty, n), n, found.0, found.1),
        ty matches ValueType::Prefixed { prefix, .. } ==> (prefix@ + ":"@).is_prefix_of(found.0),
        !(ty is Prefixed) && !(ty is OneOf) ==> found.0.len() == 0,
    decreases ty,
{
    let s = placeholder_of(ty, n);
    match ty {
        ValueType::Prefixed { prefix, value_type } => {
            let (front, text) = law_placeholders_are_numbered(*value_type, n);
            reveal_strlit(":");
            reveal_strlit(":X:");
            let head = prefix@ + ":"@;
            let bone = tab_stop(n, "NONE"@);
            let random = tab_stop(n, "No"@);
            let loc = tab_stop(n, "0"@);
            if s == head + bone {
                (head, "NONE"@)
            } else if s == head + random {
                (head, "No"@)
            } else if s == prefix@ + ":X:"@ + loc {
                assert(head.is_prefix_of(prefix@ + ":X:"@));
                (prefix@ + ":X:"@, "0"@)
            } else {
                assert(s == head + placeholder_of(*value_type, n));
                assert(s =~= (head + front) + tab_stop(n, text));
                lemma_starts(head, front);
                (head + front, text)
            }
        },
        ValueType::OneOf { variants } => if variants@.len() > 0 {
            law_placeholders_are_numbered(variants@[0], n)
        } else {
            assert(s =~= Seq::empty() + s);
            (Seq::empty(), "?"@)
        },
        _ => {
            let text = stop_text(s, n);
            assert(s =~= Seq::<char>::empty() + tab_stop(n, text)) by {
                lemma_stop(n, "?"@);
                lemma_stop(n, "Yes"@);
                lemma_stop(n, "0"@);
                lemma_stop(n, "100%"@);
                lemma_stop(n, "1000"@);
                lemma_stop(n, "NONE"@);
                lemma_stop(n, "Value"@);
                lemma_stop(n, "Sound.wav"@);
                lemma_stop(n, "Sound"@);
                lemma_stop(n, "Texture.tga"@);
                lemma_stop(n, "Texture"@);
                lemma_stop(n, "Model"@);
                lemma_stop(n, "Bone"@);
                if let ValueType::Reference { ref_kind } = ty {
                    lemma_stop(n, crate::completion::kind_name(ref_kind));
                }
                if let ValueType::ReferenceList { ref_kind } = ty {
                    lemma_stop(n, crate::completion::kind_name(ref_kind));
                }
            }
            (Seq::empty(), text)
        },
    }
}

/// The text of a tab stop.
pub open spec fn stop_text(s: Seq<char>, n: nat) -> Seq<char> {
    s.subrange(("${"@ + decimal(n) + ":"@).len() as int, s.len() - 1)
}

proof fn lemma_stop(n: nat, text: Seq<char>)
    ensures
        stop_text(tab_stop(n, text), n) == text,
{
    reveal_strlit("}");
    assert(stop_text(tab_stop(n, text), n) =~= text);
}

/// A whole list is put in token by token, each with the tab stop of its place.
pub proof fn law_lists_are_put_in_token_by_token(tokens: Seq<ValueType>, k: int)
    requires
        0 < k < tokens.len(),
    ensures
        sequence_of(tokens, 1) == placeholder_of(tokens[0], 1),
        sequence_of(tokens, k + 1) == sequence_of(tokens, k) + " "@ + placeholder_of(
            tokens[k],
            (k + 1) as nat,
        ),
{
}

proof fn lemma_zero()
    ensures
        "0"@ == signed_decimal(0),
        crate::numbers::is_real("0"@),
{
    reveal_strlit("0");
    assert(decimal(0) =~= "0"@);
    law_decimal_fractions_are_reals(0, Seq::empty(), 0);
}

proof fn lemma_hundred()
    ensures
        crate::numbers::is_real("100"@),
        crate::numbers::is_real("1000"@),
        "100"@ + "%"@ == "100%"@,
        "100"@.last() != '%',
{
    reveal_strlit("100");
    reveal_strlit("1000");
    reveal_strlit("%");
    reveal_strlit("100%");
    reveal_with_fuel(decimal, 5);
    assert(decimal(1) =~= seq!['1']);
    assert(decimal(10) =~= seq!['1', '0']);
    assert(decimal(100) =~= seq!['1', '0', '0']);
    assert(decimal(1000) =~= seq!['1', '0', '0', '0']);
    assert(decimal(100) =~= "100"@);
    assert(decimal(1000) =~= "1000"@);
    assert("100"@ + "%"@ =~= "100%"@);
    law_decimal_fractions_are_reals(100, Seq::empty(), 0);
    law_decimal_fractions_are_reals(1000, Seq::empty(), 0);
}

/// What a placeholder holds for a truth value, a number or a percentage is a right
/// value there: nothing is told of it.
pub proof fn law_placeholders_are_right(
    ctx: Ctx<'_>,
    key: Option<SyntaxToken>,
    token: SyntaxToken,
    ty: ValueType,
    n: nat,
)
    requires
        ty is Bool || ty is Int || ty is UInt || one_real(ty) || ty is Percent,
        placeholder_of(ty, n) == tab_stop(n, token.text@),
    ensures
        value_diags(ctx, key, seq![token], ty).len() == 0,
{
    lemma_stop(n, token.text@);
    lemma_stop(n, "0"@);
    lemma_stop(n, "1000"@);
    lemma_stop(n, "Yes"@);
    lemma_stop(n, "100%"@);
    lemma_zero();
    lemma_hundred();
    match ty {
        ValueType::Bool => {
            reveal_strlit("Yes");
            law_truth_is_yes_or_no(ctx, key, token);
        },
        ValueType::Int => {
            law_integers_are_checked(ctx, key, token, 0);
        },
        ValueType::UInt => {
            law_integers_are_checked(ctx, key, token, 0);
        },
        ValueType::Percent => {
            law_percentages_are_checked(ctx, key, token, "100"@);
        },
        _ => {
            law_reals_are_checked(ctx, key, token, ty);
        },
    }
}

} // verus!
