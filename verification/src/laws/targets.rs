//! The base definitions that a map overrides, and what names a cache.

use vstd::prelude::*;

use super::lists::{lemma_either, lemma_front};
use super::objects::{lemma_picked, lemma_picks};
use super::text::{around, lacks, law_last_parts, law_texts_part_at_the_first};
use crate::analyzer::Analyzer;
use crate::cache::{is_hash, legacy_name, producer_message};
use crate::extract::defined_kind;
use crate::index::{def_location, override_layer, picked, LocationView, WorkspaceIndex};
use crate::navigation::{
    block_around, first_base, first_block_around, last_segment, overridden, short_name, target_of,
    targets_from, TargetView,
};
use crate::numbers::{all_digits, digits_value};
use crate::schema::RefKind;
use crate::syntax::{Element, Parse, Span};
use crate::text::{is_digit, lower, strip_prefix, strip_suffix};
use crate::values::DiagnosticView;

verus! {

proof fn lemma_first_base(places: Seq<LocationView>, from: int)
    requires
        0 <= from,
    ensures
        match first_base(places, from) {
            Some(l) => !override_layer(l.file) && places.contains(l),
            None => forall|i: int|
                from <= i < places.len() ==> override_layer((#[trigger] places[i]).file),
        },
    decreases places.len() - from,
{
    if from < places.len() {
        lemma_first_base(places, from + 1);
        assert(places.contains(places[from]));
    }
}

proof fn lemma_target(index: &WorkspaceIndex, kind: RefKind, name: Seq<char>, t: TargetView) -> (i:
    int)
    requires
        target_of(index, kind, name).contains(t),
    ensures
        0 <= i < index.def_rows().len(),
        index.def_rows()[i].file == t.file,
        index.def_rows()[i].item.kind == t.kind,
        index.def_rows()[i].item.key == lower(t.name),
        !override_layer(t.file),
        t.kind == kind,
        t.name == name,
{
    let f = def_location(kind, lower(name));
    let places = picked(index.def_rows(), f);
    lemma_first_base(places, 0);
    let base = first_base(places, 0)->Some_0;
    let i = lemma_picked(index.def_rows(), f, base);
    i
}

/// Every target is a definition of the index in a file that overrides nothing, under
/// the kind and the name of the target.
pub proof fn law_targets_are_base_definitions(
    analyzer: &Analyzer,
    parse: &Parse,
    found: Seq<DiagnosticView>,
    range: Span,
    index: &WorkspaceIndex,
    seen: Seq<Seq<char>>,
    from: int,
    t: TargetView,
) -> (i: int)
    requires
        0 <= from,
        targets_from(analyzer, parse, found, range, index, seen, from).contains(t),
    ensures
        0 <= i < index.def_rows().len(),
        index.def_rows()[i].file == t.file,
        index.def_rows()[i].item.kind == t.kind,
        index.def_rows()[i].item.key == lower(t.name),
        !override_layer(t.file),
        !seen.contains(lower(t.name)),
    decreases found.len() - from,
{
    match overridden(analyzer, parse, found[from], range) {
        Some((kind, name)) => if seen.contains(lower(name)) {
            law_targets_are_base_definitions(
                analyzer,
                parse,
                found,
                range,
                index,
                seen,
                from + 1,
                t,
            )
        } else {
            let here = target_of(index, kind, name);
            let more = seen.push(lower(name));
            let rest = targets_from(analyzer, parse, found, range, index, more, from + 1);
            lemma_either(here, rest, t);
            if here.contains(t) {
                lemma_target(index, kind, name, t)
            } else {
                let i = law_targets_are_base_definitions(
                    analyzer,
                    parse,
                    found,
                    range,
                    index,
                    more,
                    from + 1,
                    t,
                );
                if seen.contains(lower(t.name)) {
                    assert(more =~= seen + seq![lower(name)]);
                    lemma_front(seen, seq![lower(name)], lower(t.name));
                }
                i
            }
        },
        None => law_targets_are_base_definitions(
            analyzer,
            parse,
            found,
            range,
            index,
            seen,
            from + 1,
            t,
        ),
    }
}

proof fn lemma_block_around(parse: &Parse, span: Span, from: int, k: int)
    requires
        0 <= from <= k < parse.nodes@[0].elements@.len(),
        block_around(parse, k, span) is Some,
        forall|j: int| from <= j < k ==> #[trigger] block_around(parse, j, span) is None,
    ensures
        first_block_around(parse, span, from) == block_around(parse, k, span),
    decreases k - from,
{
    if from < k {
        assert(block_around(parse, from, span) is None);
        lemma_block_around(parse, span, from + 1, k);
    }
}

/// Whether a child of the root is a block that reaches over the range.
pub open spec fn reaches_over(parse: &Parse, k: int, span: Span) -> bool {
    parse.nodes@[0].elements@[k] matches Element::Node(c) && parse.nodes@[c as int].kind is Block
        && parse.nodes@[c as int].span.start <= span.start && span.end <= parse.nodes@[c as int].span.end
}

/// Whether a target has that kind and name.
pub open spec fn names(targets: Seq<TargetView>, kind: RefKind, name: Seq<char>) -> bool {
    exists|i: int|
        0 <= i < targets.len() && (#[trigger] targets[i]).kind == kind && targets[i].name == name
}

/// An override finding that touches the range, in a block that defines a name which a
/// base file of a usable URL defines too, gives a target with that name.
pub proof fn law_overridden_definitions_are_targets(
    analyzer: &Analyzer,
    parse: &Parse,
    found: Seq<DiagnosticView>,
    range: Span,
    index: &WorkspaceIndex,
    n: int,
    k: int,
    c: int,
    kind: RefKind,
    row: int,
)
    requires
        0 <= n < found.len(),
        forall|j: int| 0 <= j < n ==> (#[trigger] found[j]).code != "overrides"@,
        found[n].code == "overrides"@,
        found[n].span.start <= range.end,
        range.start <= found[n].span.end,
        0 <= k < parse.nodes@[0].elements@.len(),
        reaches_over(parse, k, found[n].span),
        forall|j: int| 0 <= j < k ==> !#[trigger] reaches_over(parse, j, found[n].span),
        parse.nodes@[0].elements@[k] matches Element::Node(x) && x == c,
        defined_kind(analyzer, parse.nodes@[c]) == Some(kind),
        parse.nodes@[c].name is Some,
        0 <= row < index.def_rows().len(),
        index.def_rows()[row].item.kind == kind,
        index.def_rows()[row].item.key == lower(parse.nodes@[c].name->Some_0.text@),
        !override_layer(index.def_rows()[row].file),
        forall|j: int|
            0 <= j < index.def_rows().len() ==> short_name(
                (#[trigger] index.def_rows()[j]).file,
            ) is Some,
    ensures
        names(
            targets_from(analyzer, parse, found, range, index, Seq::empty(), 0),
            kind,
            parse.nodes@[c].name->Some_0.text@,
        ),
{
    let name = parse.nodes@[c].name->Some_0.text@;
    let f = def_location(kind, lower(name));
    let rows = index.def_rows();
    let places = picked(rows, f);
    let place = LocationView { file: rows[row].file, span: rows[row].item.span };
    lemma_picks(rows, f, row, place);
    lemma_first_base(places, 0);
    let at = choose|j: int| 0 <= j < places.len() && places[j] == place;
    assert(!override_layer(places[at].file));
    let base = first_base(places, 0)->Some_0;
    let b = lemma_picked(rows, f, base);
    assert(short_name(rows[b].file) is Some);
    let t = target_of(index, kind, name)[0];
    assert forall|j: int| 0 <= j < k implies #[trigger] block_around(
        parse,
        j,
        found[n].span,
    ) is None by {
        assert(!reaches_over(parse, j, found[n].span));
    }
    lemma_block_around(parse, found[n].span, 0, k);
    lemma_targets_behind(analyzer, parse, found, range, index, 0, n);
    let all = targets_from(analyzer, parse, found, range, index, Seq::empty(), n);
    assert(overridden(analyzer, parse, found[n], range) == Some((kind, name)));
    assert(all[0] == t);
}

proof fn lemma_targets_behind(
    analyzer: &Analyzer,
    parse: &Parse,
    found: Seq<DiagnosticView>,
    range: Span,
    index: &WorkspaceIndex,
    from: int,
    n: int,
)
    requires
        0 <= from <= n < found.len(),
        forall|j: int| from <= j < n ==> (#[trigger] found[j]).code != "overrides"@,
    ensures
        targets_from(analyzer, parse, found, range, index, Seq::empty(), from) == targets_from(
            analyzer,
            parse,
            found,
            range,
            index,
            Seq::empty(),
            n,
        ),
    decreases n - from,
{
    if from < n {
        assert(found[from].code != "overrides"@);
        lemma_targets_behind(analyzer, parse, found, range, index, from + 1, n);
    }
}

/// Where a URL is read, its short name is what stands behind the last slash of its
/// path.
pub proof fn law_short_names(a: Seq<char>, b: Seq<char>)
    requires
        a.len() > 0 ==> a[0] == '/',
        lacks(b, '/'),
    ensures
        last_segment(around(a, '/', b)) == b,
        b.len() > 0 ==> last_segment(b) == "base"@,
{
    law_last_parts(a, '/', b, '/', '/');
    let path = around(a, '/', b);
    if a.len() > 0 {
        assert(path[0] == a[0]);
    }
}

/// A schema is known by its producer's identity: no two have the same message.
pub proof fn law_producers_are_known_by_their_schema(a: Seq<u8>, b: Seq<u8>)
    ensures
        producer_message(a) == producer_message(b) <==> a == b,
        producer_message(a).len() == 36 + a.len(),
{
    if producer_message(a) == producer_message(b) {
        assert(producer_message(a).skip(36) =~= a);
        assert(producer_message(b).skip(36) =~= b);
    }
}

/// A name with a version of up to 32 bits and sixteen hexadecimal digits is that of an
/// older cache.
pub proof fn law_older_caches_are_known(version: Seq<char>, hash: Seq<char>)
    requires
        version.len() > 0,
        all_digits(version),
        digits_value(version) <= u32::MAX,
        hash.len() == 16,
        forall|i: int|
            0 <= i < 16 ==> {
                let c = #[trigger] hash[i];
                ('0' <= c <= '9') || ('a' <= c <= 'f') || ('A' <= c <= 'F')
            },
    ensures
        legacy_name("index-v"@ + around(version, '-', hash) + ".json"@),
{
    let body = around(version, '-', hash);
    let name = "index-v"@ + body + ".json"@;
    let rest = body + ".json"@;
    assert(name =~= "index-v"@ + rest);
    assert("index-v"@.is_prefix_of(name));
    assert(name.skip("index-v"@.len() as int) =~= rest);
    assert(strip_prefix(name, "index-v"@) == Some(rest));
    assert(".json"@.is_suffix_of(rest));
    assert(rest.take(body.len() as int) =~= body);
    assert(strip_suffix(rest, ".json"@) == Some(body));
    assert forall|i: int| 0 <= i < version.len() implies #[trigger] version[i] != '-' by {
        assert(is_digit(version[i]));
    }
    law_texts_part_at_the_first(version, '-', hash);
    assert(is_hash(hash));
}

} // verus!
