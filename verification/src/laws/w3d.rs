//! What is written in the W3D format is read back.

use vstd::prelude::*;

use crate::index::dedup_ci;
use crate::laws::lists::{lemma_behind, lemma_front};
use crate::text::{same_ci, trim, CharClass};
use crate::w3d::{
    any_nonzero, chunk_bytes, chunks_from, chunks_of, file_fold, file_of, file_step,
    hierarchy_fold, hierarchy_of, le32, lossy_text, name_in, name_text, names_among, names_under,
    own_names, pivot_at, pivot_names, pivots_in, pushed, word_bytes, zero_at, ChunkView, FileView,
    HierarchyView, PivotView, MAX_CHUNKS_PER_CONTAINER,
};

verus! {

/// The bytes of chunks that follow each other: of each, its kind, its length and its
/// data.
pub open spec fn packed(list: Seq<ChunkView>) -> Seq<u8>
    decreases list.len(),
{
    if list.len() == 0 {
        Seq::empty()
    } else {
        chunk_bytes(list[0].kind, list[0].data) + packed(list.drop_first())
    }
}

proof fn lemma_word(x: u32, front: Seq<u8>, back: Seq<u8>)
    ensures
        le32(front + word_bytes(x) + back, front.len() as int) == x,
{
    let b = front + word_bytes(x) + back;
    let at = front.len() as int;
    let w = word_bytes(x);
    assert(b[at] == w[0] && b[at + 1] == w[1] && b[at + 2] == w[2] && b[at + 3] == w[3]);
    assert(w[0] + 256 * w[1] + 65536 * w[2] + 16777216 * w[3] == x);
}

pub proof fn lemma_word_at(b: Seq<u8>, at: int, x: u32)
    requires
        0 <= at,
        at + 4 <= b.len(),
        b.subrange(at, at + 4) == word_bytes(x),
    ensures
        le32(b, at) == x,
{
    let w = b.subrange(at, at + 4);
    assert(b[at] == w[0] && b[at + 1] == w[1] && b[at + 2] == w[2] && b[at + 3] == w[3]);
    assert(w[0] + 256 * w[1] + 65536 * w[2] + 16777216 * w[3] == x);
}

proof fn lemma_chunk_at(front: Seq<u8>, c: ChunkView, back: Seq<u8>)
    requires
        c.data.len() < 0x8000_0000,
    ensures
        ({
            let b = front + chunk_bytes(c.kind, c.data) + back;
            let at = front.len() as int;
            &&& chunk_bytes(c.kind, c.data).len() == 8 + c.data.len()
            &&& le32(b, at) == c.kind
            &&& le32(b, at + 4) == c.data.len()
            &&& b.subrange(at + 8, at + 8 + c.data.len()) == c.data
        }),
{
    let b = front + chunk_bytes(c.kind, c.data) + back;
    let at = front.len() as int;
    let n = c.data.len() as u32;
    assert(b.subrange(at, at + 4) =~= word_bytes(c.kind));
    lemma_word_at(b, at, c.kind);
    assert(b.subrange(at + 4, at + 8) =~= word_bytes(n));
    lemma_word_at(b, at + 4, n);
    assert(b.subrange(at + 8, at + 8 + c.data.len()) =~= c.data);
}

proof fn lemma_packed(front: Seq<u8>, list: Seq<ChunkView>, count: int)
    requires
        0 <= count,
        count + list.len() <= MAX_CHUNKS_PER_CONTAINER,
        packed(list).len() < 0x8000_0000,
    ensures
        chunks_from(front + packed(list), front.len() as int, count) == Ok::<
            Seq<ChunkView>,
            Seq<char>,
        >(list),
    decreases list.len(),
{
    let b = front + packed(list);
    let at = front.len() as int;
    if list.len() == 0 {
        assert(!any_nonzero(b, at));
        assert(list =~= Seq::empty());
    } else {
        let first = list[0];
        let rest = list.drop_first();
        let head = chunk_bytes(first.kind, first.data);
        lemma_chunk_at(front, first, packed(rest));
        assert(b =~= front + head + packed(rest));
        lemma_packed(front + head, rest, count + 1);
        assert(seq![first] + rest =~= list);
    }
}

/// Chunks that are written one behind the other are read back, each with its kind
/// and its data, at every depth up to 16 and as long as a million are not
/// exceeded; deeper ones are refused.
pub proof fn law_chunks_read_back(list: Seq<ChunkView>, depth: int)
    requires
        list.len() <= 1_000_000,
        packed(list).len() < 0x8000_0000,
    ensures
        depth <= 16 ==> chunks_of(packed(list), depth) == Ok::<Seq<ChunkView>, Seq<char>>(list),
        depth > 16 ==> chunks_of(packed(list), depth) is Err,
{
    lemma_packed(Seq::empty(), list, 0);
    assert(Seq::<u8>::empty() + packed(list) =~= packed(list));
}

/// A chunk that claims more bytes than there are makes its container unreadable.
pub proof fn law_cut_chunks_are_refused(kind: u32, data: Seq<u8>, cut: int, depth: int)
    requires
        data.len() < 0x8000_0000,
        0 <= cut < data.len(),
    ensures
        chunks_of(word_bytes(kind) + word_bytes(data.len() as u32) + data.take(cut), depth) is Err,
{
    let n = data.len() as u32;
    let b = word_bytes(kind) + word_bytes(n) + data.take(cut);
    lemma_word(n, word_bytes(kind), data.take(cut));
}

/// Bytes of zeros.
pub open spec fn zeros(n: int) -> Seq<u8> {
    Seq::new(n as nat, |i: int| 0u8)
}

/// A name in a field of fixed width: its bytes, and zeros up to the end.
pub open spec fn padded(name: Seq<u8>, width: int) -> Seq<u8> {
    name + zeros(width - name.len())
}

/// Bytes that a field of that width can hold: no more of them, and none zero.
pub open spec fn fits_field(name: Seq<u8>, width: int) -> bool {
    &&& name.len() <= width
    &&& forall|i: int| 0 <= i < name.len() ==> #[trigger] name[i] != 0
}

/// The name that bytes spell: their text, without blanks around it.
pub open spec fn spelled(name: Seq<u8>) -> Seq<char> {
    trim(lossy_text(name), CharClass::Space)
}

proof fn lemma_zero(name: Seq<u8>, width: int, i: int)
    requires
        fits_field(name, width),
        0 <= i <= name.len(),
    ensures
        zero_at(padded(name, width), i) == name.len(),
    decreases name.len() - i,
{
    let b = padded(name, width);
    if i < name.len() {
        assert(b[i] == name[i]);
        lemma_zero(name, width, i + 1);
    } else if i < b.len() {
        assert(b[i] == 0);
    }
}

/// A name that is written into a field of fixed width is read back, without blanks
/// around it, wherever the field stands.
pub proof fn law_names_read_back(front: Seq<u8>, name: Seq<u8>, width: int, back: Seq<u8>)
    requires
        fits_field(name, width),
    ensures
        name_text(padded(name, width)) == spelled(name),
        name_in(
            front + padded(name, width) + back,
            front.len() as int,
            front.len() + width,
        ) == spelled(name),
{
    let b = front + padded(name, width) + back;
    lemma_zero(name, width, 0);
    assert(padded(name, width).subrange(0, name.len() as int) =~= name);
    assert(b.subrange(front.len() as int, front.len() + width) =~= padded(name, width));
}

/// Records one behind the other.
pub open spec fn joined(records: Seq<Seq<u8>>) -> Seq<u8>
    decreases records.len(),
{
    if records.len() == 0 {
        Seq::empty()
    } else {
        records[0] + joined(records.drop_first())
    }
}

/// Records that are all as long.
pub open spec fn even(records: Seq<Seq<u8>>, width: int) -> bool {
    forall|j: int| 0 <= j < records.len() ==> (#[trigger] records[j]).len() == width
}

pub proof fn lemma_joined_len(records: Seq<Seq<u8>>, width: int)
    requires
        even(records, width),
    ensures
        joined(records).len() == width * records.len(),
    decreases records.len(),
{
    if records.len() > 0 {
        let rest = records.drop_first();
        assert forall|j: int| 0 <= j < rest.len() implies (#[trigger] rest[j]).len() == width by {
            assert(rest[j] == records[j + 1]);
        }
        lemma_joined_len(rest, width);
        assert(records[0].len() == width);
        assert(width * records.len() == width + width * rest.len()) by (nonlinear_arith)
            requires
                records.len() == rest.len() + 1,
        ;
    } else {
        assert(width * 0 == 0) by (nonlinear_arith);
    }
}

pub proof fn lemma_joined(records: Seq<Seq<u8>>, width: int, i: int, k: int)
    requires
        even(records, width),
        0 <= i < records.len(),
        0 <= k < width,
    ensures
        width * i + k < joined(records).len(),
        0 <= width * i,
        joined(records)[width * i + k] == records[i][k],
    decreases i,
{
    let rest = records.drop_first();
    assert forall|j: int| 0 <= j < rest.len() implies (#[trigger] rest[j]).len() == width by {
        assert(rest[j] == records[j + 1]);
    }
    assert(records[0].len() == width);
    if i == 0 {
        assert(width * 0 == 0) by (nonlinear_arith);
    } else {
        lemma_joined(rest, width, i - 1, k);
        assert(width * i == width + width * (i - 1)) by (nonlinear_arith);
        assert(rest[i - 1] == records[i]);
    }
}

pub proof fn lemma_record(records: Seq<Seq<u8>>, width: int, i: int)
    requires
        even(records, width),
        0 <= i < records.len(),
        0 < width,
    ensures
        0 <= width * i,
        width * i + width <= joined(records).len(),
        joined(records).subrange(width * i, width * i + width) == records[i],
{
    let b = joined(records);
    lemma_joined(records, width, i, width - 1);
    assert(records[i].len() == width);
    assert forall|k: int| 0 <= k < width implies b.subrange(width * i, width * i + width)[k]
        == records[i][k] by {
        lemma_joined(records, width, i, k);
    }
    assert(b.subrange(width * i, width * i + width) =~= records[i]);
}

pub proof fn lemma_le32_in(b: Seq<u8>, from: int, to: int, at: int)
    requires
        0 <= from <= to <= b.len(),
        0 <= at,
        at + 4 <= to - from,
    ensures
        le32(b, from + at) == le32(b.subrange(from, to), at),
{
    let part = b.subrange(from, to);
    assert(part[at] == b[from + at]);
    assert(part[at + 1] == b[from + at + 1]);
    assert(part[at + 2] == b[from + at + 2]);
    assert(part[at + 3] == b[from + at + 3]);
}

/// Words one behind the other, the lowest byte of each first.
pub open spec fn words_bytes(list: Seq<u32>) -> Seq<u8> {
    joined(list.map_values(|x: u32| word_bytes(x)))
}

pub proof fn lemma_words(list: Seq<u32>, i: int)
    requires
        0 <= i < list.len(),
    ensures
        words_bytes(list).len() == 4 * list.len(),
        le32(words_bytes(list), 4 * i) == list[i],
{
    let parts = list.map_values(|x: u32| word_bytes(x));
    assert(even(parts, 4));
    lemma_joined_len(parts, 4);
    lemma_record(parts, 4, i);
    lemma_word_at(joined(parts), 4 * i, list[i]);
}

pub proof fn lemma_words_len(list: Seq<u32>)
    ensures
        words_bytes(list).len() == 4 * list.len(),
{
    let parts = list.map_values(|x: u32| word_bytes(x));
    assert(even(parts, 4));
    lemma_joined_len(parts, 4);
}

/// A pivot as it is written: its name, its parent, how it is moved and turned,
/// and between them three numbers that nobody reads.
pub struct PivotRecord {
    pub name: Seq<u8>,
    pub parent: u32,
    pub translation: (u32, u32, u32),
    pub angles: (u32, u32, u32),
    pub rotation: (u32, u32, u32, u32),
}

/// The 60 bytes of a pivot.
pub open spec fn pivot_bytes(r: PivotRecord) -> Seq<u8> {
    padded(r.name, 16) + words_bytes(
        seq![
            r.parent,
            r.translation.0,
            r.translation.1,
            r.translation.2,
            r.angles.0,
            r.angles.1,
            r.angles.2,
            r.rotation.0,
            r.rotation.1,
            r.rotation.2,
            r.rotation.3,
        ],
    )
}

/// The bytes of pivots one behind the other.
pub open spec fn pivots_bytes(records: Seq<PivotRecord>) -> Seq<u8> {
    joined(records.map_values(|r: PivotRecord| pivot_bytes(r)))
}

/// Pivots with names that their fields can hold.
pub open spec fn pivots_fit(records: Seq<PivotRecord>) -> bool {
    forall|i: int| 0 <= i < records.len() ==> fits_field((#[trigger] records[i]).name, 16)
}

/// What a written pivot says: a parent of all ones is none.
pub open spec fn pivot_said(r: PivotRecord) -> PivotView {
    PivotView {
        name: spelled(r.name),
        parent: if r.parent == 0xffff_ffff {
            None
        } else {
            Some(r.parent as usize)
        },
        translation: r.translation,
        rotation: r.rotation,
    }
}

/// What written pivots say, in order.
pub open spec fn pivots_said(records: Seq<PivotRecord>) -> Seq<PivotView> {
    records.map_values(|r: PivotRecord| pivot_said(r))
}

proof fn lemma_pivot(r: PivotRecord)
    requires
        fits_field(r.name, 16),
    ensures
        pivot_bytes(r).len() == 60,
        pivot_at(pivot_bytes(r), 0) == pivot_said(r),
{
    let b = pivot_bytes(r);
    let name = padded(r.name, 16);
    let numbers = seq![
        r.parent,
        r.translation.0,
        r.translation.1,
        r.translation.2,
        r.angles.0,
        r.angles.1,
        r.angles.2,
        r.rotation.0,
        r.rotation.1,
        r.rotation.2,
        r.rotation.3,
    ];
    let behind = words_bytes(numbers);
    lemma_words_len(numbers);
    assert(b == name + behind);
    assert(b =~= Seq::<u8>::empty() + name + behind);
    law_names_read_back(Seq::empty(), r.name, 16, behind);
    lemma_number_behind(name, numbers, 0);
    lemma_number_behind(name, numbers, 1);
    lemma_number_behind(name, numbers, 2);
    lemma_number_behind(name, numbers, 3);
    lemma_number_behind(name, numbers, 7);
    lemma_number_behind(name, numbers, 8);
    lemma_number_behind(name, numbers, 9);
    lemma_number_behind(name, numbers, 10);
}

pub proof fn lemma_number_behind(front: Seq<u8>, numbers: Seq<u32>, i: int)
    requires
        0 <= i < numbers.len(),
    ensures
        le32(front + words_bytes(numbers), front.len() + 4 * i) == numbers[i],
{
    let b = front + words_bytes(numbers);
    lemma_words(numbers, i);
    assert(b.subrange(front.len() as int, b.len() as int) =~= words_bytes(numbers));
    lemma_le32_in(b, front.len() as int, b.len() as int, 4 * i);
}

proof fn lemma_pivot_in(records: Seq<PivotRecord>, i: int)
    requires
        pivots_fit(records),
        0 <= i < records.len(),
    ensures
        pivots_bytes(records).len() == 60 * records.len(),
        60 * i + 60 <= pivots_bytes(records).len(),
        pivots_bytes(records).subrange(60 * i, 60 * i + 60) == pivot_bytes(records[i]),
        pivot_bytes(records[i]).len() == 60,
{
    let parts = records.map_values(|r: PivotRecord| pivot_bytes(r));
    assert forall|j: int| 0 <= j < parts.len() implies (#[trigger] parts[j]).len() == 60 by {
        assert(fits_field(records[j].name, 16));
        lemma_pivot(records[j]);
    }
    lemma_joined_len(parts, 60);
    lemma_record(parts, 60, i);
}

proof fn lemma_pivots_len(records: Seq<PivotRecord>)
    requires
        pivots_fit(records),
    ensures
        pivots_bytes(records).len() == 60 * records.len(),
{
    if records.len() > 0 {
        lemma_pivot_in(records, 0);
    }
}

/// Pivots that are written one behind the other are read back, each with its own
/// name, parent, movement and turn.
pub proof fn law_pivots_read_back(records: Seq<PivotRecord>, i: int)
    requires
        pivots_fit(records),
        0 <= i < records.len(),
    ensures
        pivots_in(pivots_bytes(records)).len() == records.len(),
        pivots_in(pivots_bytes(records))[i] == pivot_said(records[i]),
{
    let b = pivots_bytes(records);
    lemma_pivot_in(records, i);
    assert(fits_field(records[i].name, 16));
    lemma_pivot(records[i]);
    let at = 60 * i;
    let part = b.subrange(at, at + 60);
    assert(part.subrange(0, 16) =~= b.subrange(at, at + 16));
    lemma_le32_in(b, at, at + 60, 16);
    lemma_le32_in(b, at, at + 60, 20);
    lemma_le32_in(b, at, at + 60, 24);
    lemma_le32_in(b, at, at + 60, 28);
    lemma_le32_in(b, at, at + 60, 44);
    lemma_le32_in(b, at, at + 60, 48);
    lemma_le32_in(b, at, at + 60, 52);
    lemma_le32_in(b, at, at + 60, 56);
}

/// The chunks of a skeleton: its header, with its version, its name and what comes
/// behind, and its pivots.
pub open spec fn skeleton_chunks(
    version: u32,
    name: Seq<u8>,
    rest: Seq<u8>,
    records: Seq<PivotRecord>,
) -> Seq<ChunkView> {
    seq![
        ChunkView { kind: 0x101, data: word_bytes(version) + padded(name, 16) + rest },
        ChunkView { kind: 0x102, data: pivots_bytes(records) },
    ]
}

proof fn lemma_skeleton_fold(parts: Seq<ChunkView>)
    requires
        parts.len() == 2,
        parts[0].kind == 0x101 && parts[0].data.len() >= 20,
        parts[1].kind == 0x102 && parts[1].data.len() % 60 == 0,
    ensures
        hierarchy_fold(parts, 0, HierarchyView { name: Seq::empty(), pivots: Seq::empty() })
            matches Ok(h) && h.name == name_in(parts[0].data, 4, 20) && h.pivots == pivots_in(
            parts[1].data,
        ),
{
    let name = name_in(parts[0].data, 4, 20);
    let pivots = pivots_in(parts[1].data);
    let h1 = HierarchyView { name, pivots: Seq::empty() };
    let h2 = HierarchyView { name, pivots };
    assert(Seq::<PivotView>::empty() + pivots =~= pivots);
    assert(hierarchy_fold(parts, 2, h2) == Ok::<HierarchyView, Seq<char>>(h2));
    assert(hierarchy_fold(parts, 1, h1) == hierarchy_fold(parts, 2, h2));
}

/// A skeleton is read back with its name, and with each of its pivots.
pub proof fn law_skeletons_read_back(
    version: u32,
    name: Seq<u8>,
    rest: Seq<u8>,
    records: Seq<PivotRecord>,
)
    requires
        fits_field(name, 16),
        pivots_fit(records),
        rest.len() < 0x1000_0000,
        60 * records.len() < 0x4000_0000,
    ensures
        hierarchy_of(packed(skeleton_chunks(version, name, rest, records))) matches Ok(h)
            && h.name == spelled(name) && h.pivots == pivots_said(records),
{
    let head = word_bytes(version) + padded(name, 16) + rest;
    law_names_read_back(word_bytes(version), name, 16, rest);
    lemma_pivots_said(records);
    lemma_skeleton_of(head, pivots_bytes(records));
}

proof fn lemma_skeleton_of(head: Seq<u8>, body: Seq<u8>)
    requires
        20 <= head.len() < 0x2000_0000,
        body.len() < 0x4000_0000,
        body.len() % 60 == 0,
    ensures
        hierarchy_of(
            packed(
                seq![
                    ChunkView { kind: 0x101, data: head },
                    ChunkView { kind: 0x102, data: body },
                ],
            ),
        ) matches Ok(h) && h.name == name_in(head, 4, 20) && h.pivots == pivots_in(body),
{
    let a = ChunkView { kind: 0x101, data: head };
    let b = ChunkView { kind: 0x102, data: body };
    lemma_two(a, b);
    law_chunks_read_back(seq![a, b], 1);
    lemma_skeleton_fold(seq![a, b]);
}

proof fn lemma_pivots_said(records: Seq<PivotRecord>)
    requires
        pivots_fit(records),
    ensures
        pivots_bytes(records).len() == 60 * records.len(),
        pivots_bytes(records).len() % 60 == 0,
        pivots_in(pivots_bytes(records)) == pivots_said(records),
{
    let pivots = pivots_in(pivots_bytes(records));
    lemma_pivots_len(records);
    assert forall|i: int| 0 <= i < records.len() implies #[trigger] pivots[i] == pivots_said(
        records,
    )[i] by {
        law_pivots_read_back(records, i);
    }
    assert(pivots =~= pivots_said(records));
}

proof fn lemma_two(a: ChunkView, b: ChunkView)
    ensures
        packed(seq![a, b]).len() == 16 + a.data.len() + b.data.len(),
{
    let list = seq![a, b];
    assert(list.drop_first() =~= seq![b]);
    assert(seq![b].drop_first() =~= Seq::empty());
    assert(packed(Seq::empty()).len() == 0);
    assert(packed(seq![b]).len() == 8 + b.data.len());
}

/// A text that begins and ends with something else than a blank.
pub open spec fn unblank(t: Seq<char>) -> bool {
    t.len() > 0 && !crate::text::in_class(t[0], CharClass::Space) && !crate::text::in_class(
        t.last(),
        CharClass::Space,
    )
}

pub proof fn lemma_unblank(t: Seq<char>)
    requires
        unblank(t),
    ensures
        trim(t, CharClass::Space) == t,
{
    assert(crate::text::trim_start(t, CharClass::Space) == t);
}

pub proof fn lemma_pushed(t: Seq<char>)
    requires
        unblank(t),
    ensures
        pushed(t).contains(t),
{
    lemma_unblank(t);
    assert(pushed(t)[0] == t);
}

proof fn lemma_pivot_names(records: Seq<PivotRecord>, from: int, i: int)
    requires
        pivots_fit(records),
        0 <= from <= i < records.len(),
        unblank(lossy_text(records[i].name)),
    ensures
        pivot_names(pivots_bytes(records), from).contains(lossy_text(records[i].name)),
    decreases i - from,
{
    let b = pivots_bytes(records);
    let t = lossy_text(records[i].name);
    lemma_pivot_in(records, i);
    let here = pushed(name_in(b, 60 * from, 60 * from + 16));
    let rest = pivot_names(b, from + 1);
    assert(pivot_names(b, from) == here + rest);
    if from < i {
        lemma_pivot_names(records, from + 1, i);
        lemma_behind(here, rest, t);
    } else {
        law_pivots_read_back(records, i);
        lemma_unblank(t);
        lemma_pushed(t);
        lemma_front(here, rest, t);
    }
}

/// The names that a chunk of pivots holds are among the members that are collected
/// from it, each pivot's own.
pub proof fn law_pivot_names_are_collected(records: Seq<PivotRecord>, depth: int, i: int)
    requires
        pivots_fit(records),
        0 <= i < records.len(),
        unblank(lossy_text(records[i].name)),
    ensures
        names_under(0x102, pivots_bytes(records), depth) matches Ok(n) && n.members.contains(
            lossy_text(records[i].name),
        ),
{
    lemma_pivot_names(records, 0, i);
}

proof fn lemma_among(list: Seq<ChunkView>, from: int, j: int, depth: int, m: Seq<char>)
    requires
        0 <= from <= j < list.len(),
        names_among(list, from, depth) is Ok,
        names_under(list[j].kind, list[j].data, depth) matches Ok(n) ==> n.members.contains(m),
    ensures
        names_among(list, from, depth)->Ok_0.members.contains(m),
    decreases j - from,
{
    let here = names_under(list[from].kind, list[from].data, depth)->Ok_0;
    let rest = names_among(list, from + 1, depth)->Ok_0;
    if from < j {
        lemma_among(list, from + 1, j, depth, m);
        lemma_behind(here.members, rest.members, m);
    } else {
        lemma_front(here.members, rest.members, m);
    }
}

proof fn lemma_fold_keeps(list: Seq<ChunkView>, i: int, f: FileView, m: Seq<char>)
    requires
        0 <= i,
        f.extra_members.contains(m),
    ensures
        file_fold(list, i, f) matches Ok(g) ==> g.extra_members.contains(m),
    decreases list.len() - i,
{
    if i < list.len() {
        if let Ok(g) = file_step(list[i], f) {
            let added = names_under(list[i].kind, list[i].data, 0)->Ok_0.members;
            assert(g.extra_members == f.extra_members + added);
            lemma_front(f.extra_members, added, m);
            lemma_fold_keeps(list, i + 1, g, m);
        }
    }
}

proof fn lemma_fold_adds(list: Seq<ChunkView>, i: int, k: int, f: FileView, m: Seq<char>)
    requires
        0 <= i <= k < list.len(),
        names_under(list[k].kind, list[k].data, 0) matches Ok(n) ==> n.members.contains(m),
    ensures
        file_fold(list, i, f) matches Ok(g) ==> g.extra_members.contains(m),
    decreases k - i,
{
    if let Ok(g) = file_step(list[i], f) {
        if i < k {
            lemma_fold_adds(list, i + 1, k, g, m);
        } else {
            let added = names_under(list[i].kind, list[i].data, 0)->Ok_0.members;
            assert(g.extra_members == f.extra_members + added);
            lemma_behind(f.extra_members, added, m);
            lemma_fold_keeps(list, i + 1, g, m);
        }
    }
}

/// A name is in a list, in any ASCII case.
pub open spec fn listed(names: Seq<Seq<char>>, name: Seq<char>) -> bool {
    exists|i: int| 0 <= i < names.len() && same_ci(#[trigger] names[i], name)
}

pub proof fn lemma_dedup(names: Seq<Seq<char>>, name: Seq<char>)
    requires
        names.contains(name),
    ensures
        listed(dedup_ci(names), name),
    decreases names.len(),
{
    let front = names.drop_last();
    let rest = dedup_ci(front);
    if names.last() == name {
        if crate::model::any_ci(rest, name) {
            let i = choose|i: int| 0 <= i < rest.len() && same_ci(#[trigger] rest[i], name);
            assert(same_ci(dedup_ci(names)[i], name));
        } else {
            let all = rest.push(name);
            assert(all[rest.len() as int] == name);
            assert(same_ci(dedup_ci(names)[rest.len() as int], name));
        }
    } else {
        let j = choose|j: int| 0 <= j < names.len() && names[j] == name;
        assert(front[j] == name);
        lemma_dedup(front, name);
        let i = choose|i: int| 0 <= i < rest.len() && same_ci(#[trigger] rest[i], name);
        assert(dedup_ci(names)[i] == rest[i]);
    }
}

/// Each pivot of a skeleton is a member of every model that the file offers, by its
/// own name.
pub proof fn law_pivots_are_members(
    tops: Seq<ChunkView>,
    parts: Seq<ChunkView>,
    records: Seq<PivotRecord>,
    fallback: Seq<char>,
    k: int,
    j: int,
    i: int,
    e: int,
)
    requires
        tops.len() <= 1_000_000,
        parts.len() <= 1_000_000,
        packed(tops).len() < 0x8000_0000,
        packed(parts).len() < 0x8000_0000,
        0 <= k < tops.len(),
        tops[k] == (ChunkView { kind: 0x100, data: packed(parts) }),
        0 <= j < parts.len(),
        parts[j] == (ChunkView { kind: 0x102, data: pivots_bytes(records) }),
        pivots_fit(records),
        0 <= i < records.len(),
        unblank(lossy_text(records[i].name)),
    ensures
        file_of(packed(tops)) matches Ok(file) ==> (0 <= e < file.models(fallback).len() ==> listed(
            file.models(fallback)[e].members,
            lossy_text(records[i].name),
        )),
{
    let t = lossy_text(records[i].name);
    if let Ok(file) = file_of(packed(tops)) {
        if 0 <= e < file.models(fallback).len() {
            law_chunks_read_back(tops, 0);
            law_chunks_read_back(parts, 1);
            law_pivot_names_are_collected(records, 1, i);
            if names_under(0x100, packed(parts), 0) is Ok {
                lemma_among(parts, 0, j, 1, t);
                let rest = names_among(parts, 0, 1)->Ok_0;
                lemma_behind(own_names(0x100, packed(parts)).members, rest.members, t);
            }
            lemma_fold_adds(tops, 0, k, crate::w3d::empty_file(), t);
            assert(file.extra_members.contains(t));
            lemma_all_members(file, t);
            lemma_dedup(file.all_members(), t);
            crate::w3d::law_models_keep_their_own_skeleton(file, fallback, e);
        }
    }
}

proof fn lemma_all_members(file: FileView, t: Seq<char>)
    requires
        file.extra_members.contains(t),
    ensures
        file.all_members().contains(t),
{
    let meshes = crate::w3d::mesh_names(file.meshes, 0);
    let bones = crate::w3d::skeleton_members(file.hierarchies, 0);
    let parts = crate::w3d::hlod_members(file.hlods, 0);
    lemma_front(file.extra_members, meshes, t);
    lemma_front(file.extra_members + meshes, bones, t);
    lemma_front(file.extra_members + meshes + bones, parts, t);
}

} // verus!
