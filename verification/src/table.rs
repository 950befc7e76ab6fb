//! Contribution tables: ordered entries, each tagged with the file that
//! contributed it. One file's entries can be replaced without touching those
//! of any other file.

use vstd::prelude::*;

use crate::text::same;

verus! {

/// An entry with its contributor.
pub struct Entry<T> {
    pub file: String,
    pub item: T,
}

/// The model of an [`Entry`].
pub struct EntryView<V> {
    pub file: Seq<char>,
    pub item: V,
}

impl<T: View> View for Entry<T> {
    type V = EntryView<T::V>;

    open spec fn view(&self) -> EntryView<T::V> {
        EntryView { file: self.file@, item: self.item@ }
    }
}

/// The model of a table.
pub open spec fn entries<T: View>(rows: Seq<Entry<T>>) -> Seq<EntryView<T::V>> {
    rows.map_values(|e: Entry<T>| e@)
}

/// The entries that other files contributed, in order.
pub open spec fn others<V>(rows: Seq<EntryView<V>>, file: Seq<char>) -> Seq<EntryView<V>>
    decreases rows.len(),
{
    if rows.len() == 0 {
        Seq::empty()
    } else {
        let rest = others(rows.drop_last(), file);
        if rows.last().file == file {
            rest
        } else {
            rest.push(rows.last())
        }
    }
}

/// The items that `file` contributed, in order.
pub open spec fn owned<V>(rows: Seq<EntryView<V>>, file: Seq<char>) -> Seq<V>
    decreases rows.len(),
{
    if rows.len() == 0 {
        Seq::empty()
    } else {
        let rest = owned(rows.drop_last(), file);
        if rows.last().file == file {
            rest.push(rows.last().item)
        } else {
            rest
        }
    }
}

/// `items` as contributions of `file`.
pub open spec fn tagged<V>(file: Seq<char>, items: Seq<V>) -> Seq<EntryView<V>> {
    items.map_values(|item: V| EntryView { file, item })
}

/// Whether `file` contributes to the table.
pub open spec fn contributes<V>(rows: Seq<EntryView<V>>, file: Seq<char>) -> bool {
    exists|i: int| 0 <= i < rows.len() && (#[trigger] rows[i]).file == file
}

/// Drops the entries of one file.
pub fn drop_file<T: View>(rows: &mut Vec<Entry<T>>, file: &str)
    ensures
        entries(final(rows)@) == others(entries(old(rows)@), file@),
{
    let ghost target = others(entries(rows@), file@);
    let mut kept: Vec<Entry<T>> = Vec::new();
    assert(target + entries(kept@).reverse() =~= target);
    while rows.len() > 0
        invariant
            others(entries(rows@), file@) + entries(kept@).reverse() == target,
        decreases rows.len(),
    {
        let ghost r0 = rows@;
        let ghost k0 = kept@;
        if let Some(entry) = rows.pop() {
            assert(entries(r0).drop_last() =~= entries(rows@));
            assert(entries(r0).last() == entry@);
            if !same(entry.file.as_str(), file) {
                kept.push(entry);
                assert(entries(kept@).reverse() =~= seq![entry@] + entries(k0).reverse());
            }
            assert(others(entries(rows@), file@) + entries(kept@).reverse() =~= others(
                entries(r0),
                file@,
            ) + entries(k0).reverse());
        }
    }
    assert(entries(rows@) + entries(kept@).reverse() =~= target);
    while kept.len() > 0
        invariant
            entries(rows@) + entries(kept@).reverse() == target,
        decreases kept.len(),
    {
        let ghost r0 = rows@;
        let ghost k0 = kept@;
        if let Some(entry) = kept.pop() {
            rows.push(entry);
            assert(entries(k0).reverse() =~= seq![entry@] + entries(kept@).reverse());
            assert(entries(rows@) =~= entries(r0).push(entry@));
            assert(entries(rows@) + entries(kept@).reverse() =~= entries(r0) + entries(
                k0,
            ).reverse());
        }
    }
    assert(entries(rows@) =~= target);
}

/// Whether `file` contributes to the table.
pub fn has_file<T: View>(rows: &Vec<Entry<T>>, file: &str) -> (r: bool)
    ensures
        r == contributes(entries(rows@), file@),
{
    let mut i: usize = 0;
    while i < rows.len()
        invariant
            i <= rows.len(),
            forall|k: int| 0 <= k < i ==> (#[trigger] entries(rows@)[k]).file != file@,
        decreases rows.len() - i,
    {
        if same(rows[i].file.as_str(), file) {
            assert(entries(rows@)[i as int].file == file@);
            return true;
        }
        i += 1;
    }
    false
}

/// Appends one contribution.
pub fn push_entry<T: View>(rows: &mut Vec<Entry<T>>, file: &str, item: T)
    ensures
        entries(final(rows)@) == entries(old(rows)@).push(
            EntryView { file: file@, item: item@ },
        ),
{
    let ghost before = entries(rows@);
    rows.push(Entry { file: file.to_owned(), item });
    assert(entries(rows@) =~= before.push(EntryView { file: file@, item: item@ }));
}

/// No entry of `file` survives its removal.
pub proof fn law_removed_file_is_gone<V>(rows: Seq<EntryView<V>>, file: Seq<char>)
    ensures
        !contributes(others(rows, file), file),
        owned(others(rows, file), file) == Seq::<V>::empty(),
    decreases rows.len(),
{
    if rows.len() > 0 {
        law_removed_file_is_gone(rows.drop_last(), file);
        let rest = others(rows.drop_last(), file);
        if rows.last().file != file {
            assert(rest.push(rows.last()).drop_last() =~= rest);
            assert forall|i: int| 0 <= i < rest.push(rows.last()).len() implies (
            #[trigger] rest.push(rows.last())[i]).file != file by {
                if i < rest.len() {
                    assert(rest[i].file != file);
                }
            }
        }
    }
}

/// Removing one file leaves what any other file contributed.
pub proof fn law_removal_keeps_other_files<V>(
    rows: Seq<EntryView<V>>,
    file: Seq<char>,
    other: Seq<char>,
)
    requires
        other != file,
    ensures
        owned(others(rows, file), other) == owned(rows, other),
    decreases rows.len(),
{
    if rows.len() > 0 {
        law_removal_keeps_other_files(rows.drop_last(), file, other);
        let rest = others(rows.drop_last(), file);
        if rows.last().file != file {
            assert(rest.push(rows.last()).drop_last() =~= rest);
        }
    }
}

/// Replacing one file's entries: afterwards it owns exactly the new items,
/// and every other file owns what it owned before.
pub proof fn law_replacement<V>(
    rows: Seq<EntryView<V>>,
    file: Seq<char>,
    items: Seq<V>,
    other: Seq<char>,
)
    requires
        other != file,
    ensures
        owned(others(rows, file) + tagged(file, items), file) == items,
        owned(others(rows, file) + tagged(file, items), other) == owned(rows, other),
    decreases items.len(),
{
    let kept = others(rows, file);
    if items.len() == 0 {
        law_removed_file_is_gone(rows, file);
        law_removal_keeps_other_files(rows, file, other);
        assert(kept + tagged(file, items) =~= kept);
        assert(items =~= Seq::<V>::empty());
    } else {
        law_replacement(rows, file, items.drop_last(), other);
        let all = kept + tagged(file, items);
        assert(all.drop_last() =~= kept + tagged(file, items.drop_last()));
        assert(items =~= items.drop_last().push(items.last()));
    }
}

} // verus!
