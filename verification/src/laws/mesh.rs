//! What is written of meshes, models and animations in the W3D format is read back.

use vstd::prelude::*;

use crate::laws::lists::{lemma_behind, lemma_front};
use crate::laws::w3d::{
    even, fits_field, joined, law_chunks_read_back, law_names_read_back, lemma_joined,
    lemma_joined_len, lemma_le32_in, lemma_record, lemma_words, lemma_words_len, packed, padded,
    spelled, unblank, words_bytes,
};
use crate::w3d::{
    animations_fold, animations_of, colors_of, hlod_fold, influences_of, le32, lod_fold,
    lossy_text, mesh_step, names_under, pairs_of, pushed, subobject_of, triangles_of, triples_of,
    word_bytes, words_of, ChunkView, HlodView, LodView, MeshView,
};

verus! {

/// Words are read back; bytes that are no whole number of words are refused.
pub proof fn law_words_read_back(list: Seq<u32>, extra: Seq<u8>)
    ensures
        words_of(words_bytes(list)) == Ok::<Seq<u32>, Seq<char>>(list),
        extra.len() % 4 != 0 ==> words_of(words_bytes(list) + extra) is Err,
{
    lemma_words_len(list);
    let read = crate::w3d::words(words_bytes(list));
    assert forall|i: int| 0 <= i < list.len() implies #[trigger] read[i] == list[i] by {
        lemma_words(list, i);
    }
    assert(read =~= list);
}

/// The bytes of records of words.
pub open spec fn rows_bytes(rows: Seq<Seq<u32>>) -> Seq<u8> {
    joined(rows.map_values(|r: Seq<u32>| words_bytes(r)))
}

/// Records that are all of as many words.
pub open spec fn rows_of(rows: Seq<Seq<u32>>, n: int) -> bool {
    forall|i: int| 0 <= i < rows.len() ==> (#[trigger] rows[i]).len() == n
}

proof fn lemma_row(rows: Seq<Seq<u32>>, n: int, i: int, k: int)
    requires
        rows_of(rows, n),
        0 < n,
        0 <= i < rows.len(),
        0 <= k < n,
    ensures
        rows_bytes(rows).len() == 4 * n * rows.len(),
        le32(rows_bytes(rows), 4 * n * i + 4 * k) == rows[i][k],
{
    let parts = rows.map_values(|r: Seq<u32>| words_bytes(r));
    assert forall|j: int| 0 <= j < parts.len() implies (#[trigger] parts[j]).len() == 4 * n by {
        assert(rows[j].len() == n);
        lemma_words_len(rows[j]);
    }
    lemma_joined_len(parts, 4 * n);
    lemma_record(parts, 4 * n, i);
    let b = joined(parts);
    let at = 4 * n * i;
    assert(b.subrange(at, at + 4 * n) == words_bytes(rows[i]));
    lemma_words(rows[i], k);
    lemma_le32_in(b, at, at + 4 * n, 4 * k);
}

proof fn lemma_rows_len(rows: Seq<Seq<u32>>, n: int)
    requires
        rows_of(rows, n),
    ensures
        rows_bytes(rows).len() == 4 * n * rows.len(),
{
    let parts = rows.map_values(|r: Seq<u32>| words_bytes(r));
    assert forall|j: int| 0 <= j < parts.len() implies (#[trigger] parts[j]).len() == 4 * n by {
        assert(rows[j].len() == n);
        lemma_words_len(rows[j]);
    }
    lemma_joined_len(parts, 4 * n);
}

/// Vectors of three and of two numbers are read back, and so are the corners of
/// triangles, of which each is followed by five words that nobody reads.
pub proof fn law_vectors_read_back(rows: Seq<Seq<u32>>, n: int, i: int)
    requires
        rows_of(rows, n),
        0 <= i < rows.len(),
    ensures
        n == 3 ==> (triples_of(rows_bytes(rows)) matches Ok(list) && list.len() == rows.len()
            && list[i] == (rows[i][0], rows[i][1], rows[i][2])),
        n == 2 ==> (pairs_of(rows_bytes(rows)) matches Ok(list) && list.len() == rows.len()
            && list[i] == (rows[i][0], rows[i][1])),
        n == 8 ==> (triangles_of(rows_bytes(rows)) matches Ok(list) && list.len() == rows.len()
            && list[i] == (rows[i][0], rows[i][1], rows[i][2])),
{
    if n == 3 {
        lemma_triple(rows, i);
    }
    if n == 2 {
        lemma_pair(rows, i);
    }
    if n == 8 {
        lemma_triangle(rows, i);
    }
}

proof fn lemma_triple(rows: Seq<Seq<u32>>, i: int)
    requires
        rows_of(rows, 3),
        0 <= i < rows.len(),
    ensures
        triples_of(rows_bytes(rows)) matches Ok(list) && list.len() == rows.len() && list[i] == (
            rows[i][0],
            rows[i][1],
            rows[i][2],
        ),
{
    lemma_row(rows, 3, i, 0);
    lemma_row(rows, 3, i, 1);
    lemma_row(rows, 3, i, 2);
    let n = rows.len() as int;
    assert(4 * 3 * n == 12 * n && 4 * 3 * i == 12 * i) by (nonlinear_arith);
}

proof fn lemma_pair(rows: Seq<Seq<u32>>, i: int)
    requires
        rows_of(rows, 2),
        0 <= i < rows.len(),
    ensures
        pairs_of(rows_bytes(rows)) matches Ok(list) && list.len() == rows.len() && list[i] == (
            rows[i][0],
            rows[i][1],
        ),
{
    lemma_row(rows, 2, i, 0);
    lemma_row(rows, 2, i, 1);
    let n = rows.len() as int;
    assert(4 * 2 * n == 8 * n && 4 * 2 * i == 8 * i) by (nonlinear_arith);
}

proof fn lemma_triangle(rows: Seq<Seq<u32>>, i: int)
    requires
        rows_of(rows, 8),
        0 <= i < rows.len(),
    ensures
        triangles_of(rows_bytes(rows)) matches Ok(list) && list.len() == rows.len() && list[i] == (
            rows[i][0],
            rows[i][1],
            rows[i][2],
        ),
{
    lemma_row(rows, 8, i, 0);
    lemma_row(rows, 8, i, 1);
    lemma_row(rows, 8, i, 2);
    let n = rows.len() as int;
    assert(4 * 8 * n == 32 * n && 4 * 8 * i == 32 * i) by (nonlinear_arith);
}

/// Colors are read back: of each its red, green, blue and opacity, in this order.
pub proof fn law_colors_read_back(list: Seq<(u8, u8, u8, u8)>, i: int)
    requires
        0 <= i < list.len(),
    ensures
        colors_of(
            joined(
                list.map_values(|c: (u8, u8, u8, u8)| seq![c.0, c.1, c.2, c.3]),
            ),
        ) matches Ok(read) && read.len() == list.len() && read[i] == list[i],
{
    let parts = list.map_values(|c: (u8, u8, u8, u8)| seq![c.0, c.1, c.2, c.3]);
    assert(even(parts, 4));
    lemma_joined_len(parts, 4);
    lemma_joined(parts, 4, i, 0);
    lemma_joined(parts, 4, i, 1);
    lemma_joined(parts, 4, i, 2);
    lemma_joined(parts, 4, i, 3);
}

/// The bone that each vertex hangs on is read back: the low two bytes of eight.
pub proof fn law_influences_read_back(list: Seq<u16>, rest: Seq<Seq<u8>>, i: int)
    requires
        0 <= i < list.len(),
        rest.len() == list.len(),
        even(rest, 6),
    ensures
        influences_of(
            joined(
                Seq::new(
                    list.len(),
                    |j: int| seq![(list[j] % 256) as u8, (list[j] / 256) as u8] + rest[j],
                ),
            ),
        ) matches Ok(read) && read.len() == list.len() && read[i] == list[i],
{
    let parts = Seq::new(
        list.len(),
        |j: int| seq![(list[j] % 256) as u8, (list[j] / 256) as u8] + rest[j],
    );
    assert forall|j: int| 0 <= j < parts.len() implies (#[trigger] parts[j]).len() == 8 by {
        assert(rest[j].len() == 6);
    }
    lemma_joined_len(parts, 8);
    lemma_joined(parts, 8, i, 0);
    lemma_joined(parts, 8, i, 1);
    let x = list[i];
    assert(parts[i][0] == (x % 256) as u8 && parts[i][1] == (x / 256) as u8);
}

/// A part of a model is read back with its bone and its name.
pub proof fn law_parts_read_back(bone: u32, name: Seq<u8>, rest: Seq<u8>)
    requires
        fits_field(name, 32),
    ensures
        subobject_of(word_bytes(bone) + padded(name, 32) + rest) matches Ok(part) && part.bone
            == bone as usize && part.name == spelled(name),
{
    let b = word_bytes(bone) + padded(name, 32) + rest;
    law_names_read_back(word_bytes(bone), name, 32, rest);
    lemma_first_word(bone, padded(name, 32) + rest);
    assert(b =~= word_bytes(bone) + (padded(name, 32) + rest));
}

proof fn lemma_first_word(x: u32, back: Seq<u8>)
    ensures
        le32(word_bytes(x) + back, 0) == x,
{
    let b = word_bytes(x) + back;
    assert(b.subrange(0, 4) =~= word_bytes(x));
    crate::laws::w3d::lemma_word_at(b, 0, x);
}

/// The header of a mesh: two words, of which the second holds its attributes, its
/// name, and the name of what it belongs to.
pub open spec fn mesh_header(
    version: u32,
    attributes: u32,
    name: Seq<u8>,
    container: Seq<u8>,
    rest: Seq<u8>,
) -> Seq<u8> {
    words_bytes(seq![version, attributes]) + padded(name, 16) + padded(container, 16) + rest
}

/// The header of a mesh is read back with its attributes, its name and its
/// container, and leaves the rest of the mesh as it is.
pub proof fn law_mesh_headers_read_back(
    version: u32,
    attributes: u32,
    name: Seq<u8>,
    container: Seq<u8>,
    rest: Seq<u8>,
    m: MeshView,
)
    requires
        fits_field(name, 16),
        fits_field(container, 16),
    ensures
        mesh_step(
            ChunkView {
                kind: 0x1f,
                data: mesh_header(version, attributes, name, container, rest),
            },
            m,
        ) == Ok::<MeshView, Seq<char>>(
            MeshView { attributes, name: spelled(name), container: spelled(container), ..m },
        ),
{
    let words = words_bytes(seq![version, attributes]);
    let b = mesh_header(version, attributes, name, container, rest);
    lemma_words_len(seq![version, attributes]);
    let behind = padded(name, 16) + padded(container, 16) + rest;
    assert(b =~= words + behind);
    lemma_words(seq![version, attributes], 1);
    assert(b.subrange(0, 8) =~= words);
    lemma_le32_in(b, 0, 8, 4);
    law_names_read_back(words, name, 16, padded(container, 16) + rest);
    assert(b =~= words + padded(name, 16) + (padded(container, 16) + rest));
    law_names_read_back(words + padded(name, 16), container, 16, rest);
}

/// The vertices, the normals, the texture coordinates and the triangles of a mesh are
/// those of its chunks, and each chunk leaves the others as they are.
pub proof fn law_mesh_chunks_read_back(rows: Seq<Seq<u32>>, n: int, m: MeshView)
    requires
        rows_of(rows, n),
    ensures
        ({
            let b = rows_bytes(rows);
            &&& n == 3 ==> mesh_step(ChunkView { kind: 0x02, data: b }, m) == Ok::<
                MeshView,
                Seq<char>,
            >(MeshView { vertices: triples_of(b)->Ok_0, ..m }) && mesh_step(
                ChunkView { kind: 0x03, data: b },
                m,
            ) == Ok::<MeshView, Seq<char>>(MeshView { normals: triples_of(b)->Ok_0, ..m })
            &&& n == 2 ==> mesh_step(ChunkView { kind: 0x0d, data: b }, m) == Ok::<
                MeshView,
                Seq<char>,
            >(MeshView { uvs: pairs_of(b)->Ok_0, ..m })
            &&& n == 8 ==> mesh_step(ChunkView { kind: 0x20, data: b }, m) == Ok::<
                MeshView,
                Seq<char>,
            >(MeshView { triangles: triangles_of(b)->Ok_0, ..m })
        }),
{
    let len = rows.len() as int;
    if n == 3 {
        lemma_rows_len(rows, 3);
        assert(4 * 3 * len == 12 * len) by (nonlinear_arith);
    }
    if n == 2 {
        lemma_rows_len(rows, 2);
        assert(4 * 2 * len == 8 * len) by (nonlinear_arith);
    }
    if n == 8 {
        lemma_rows_len(rows, 8);
        assert(4 * 8 * len == 32 * len) by (nonlinear_arith);
    }
}

/// The header of a model with levels of detail: two words, its name, and that of its
/// skeleton.
pub open spec fn hlod_header(
    words: Seq<u32>,
    name: Seq<u8>,
    skeleton: Seq<u8>,
    rest: Seq<u8>,
) -> Seq<u8> {
    words_bytes(words) + padded(name, 16) + padded(skeleton, 16) + rest
}

/// A model's header is read back with its name and the name of its skeleton, and both
/// are collected as names of models.
pub proof fn law_model_headers_read_back(
    words: Seq<u32>,
    name: Seq<u8>,
    skeleton: Seq<u8>,
    rest: Seq<u8>,
    h: HlodView,
    depth: int,
)
    requires
        words.len() == 2,
        fits_field(name, 16),
        fits_field(skeleton, 16),
    ensures
        ({
            let b = hlod_header(words, name, skeleton, rest);
            &&& hlod_fold(seq![ChunkView { kind: 0x701, data: b }], 0, h) == Ok::<
                HlodView,
                Seq<char>,
            >(HlodView { name: spelled(name), hierarchy: spelled(skeleton), ..h })
            &&& unblank(lossy_text(name)) ==> (names_under(0x701, b, depth) matches Ok(n)
                && n.names.contains(lossy_text(name)))
            &&& unblank(lossy_text(skeleton)) ==> (names_under(0x701, b, depth) matches Ok(n)
                && n.names.contains(lossy_text(skeleton)))
        }),
{
    let front = words_bytes(words);
    let b = hlod_header(words, name, skeleton, rest);
    lemma_words_len(words);
    law_names_read_back(front, name, 16, padded(skeleton, 16) + rest);
    assert(b =~= front + padded(name, 16) + (padded(skeleton, 16) + rest));
    law_names_read_back(front + padded(name, 16), skeleton, 16, rest);
    reveal_with_fuel(hlod_fold, 2);
    let c = ChunkView { kind: 0x701, data: b };
    assert(seq![c][0] == c);
    let mine = pushed(spelled(name));
    let other = pushed(spelled(skeleton));
    if unblank(lossy_text(name)) {
        crate::laws::w3d::lemma_unblank(lossy_text(name));
        crate::laws::w3d::lemma_pushed(lossy_text(name));
        lemma_front(mine, other, lossy_text(name));
    }
    if unblank(lossy_text(skeleton)) {
        crate::laws::w3d::lemma_unblank(lossy_text(skeleton));
        crate::laws::w3d::lemma_pushed(lossy_text(skeleton));
        lemma_behind(mine, other, lossy_text(skeleton));
    }
}

/// A level of detail keeps the largest size on screen that it is for, and each of its
/// parts, in order.
pub proof fn law_levels_read_back(count: u32, size: u32, part: Seq<u8>, l: LodView)
    requires
        subobject_of(part) is Ok,
    ensures
        lod_fold(
            seq![
                ChunkView { kind: 0x703, data: words_bytes(seq![count, size]) },
                ChunkView { kind: 0x704, data: part },
            ],
            0,
            l,
        ) == Ok::<LodView, Seq<char>>(
            LodView {
                max_screen_size: size,
                subobjects: l.subobjects.push(subobject_of(part)->Ok_0),
            },
        ),
{
    let list = seq![
        ChunkView { kind: 0x703, data: words_bytes(seq![count, size]) },
        ChunkView { kind: 0x704, data: part },
    ];
    lemma_words_len(seq![count, size]);
    lemma_words(seq![count, size], 1);
    reveal_with_fuel(lod_fold, 3);
    assert(list[0].kind == 0x703 && list[1].kind == 0x704);
    assert(le32(list[0].data, 4) == size);
}

/// The header of an animation: a word, its name, the name of its skeleton, and what
/// comes behind.
pub open spec fn animation_header(
    version: u32,
    name: Seq<u8>,
    skeleton: Seq<u8>,
    rest: Seq<u8>,
) -> Seq<u8> {
    word_bytes(version) + padded(name, 16) + padded(skeleton, 16) + rest
}

/// An animation is known as `Skeleton.Name`, of its skeleton, whether it is raw,
/// compressed or a morph; a header that is cut short is refused.
pub proof fn law_animations_read_back(
    kind: u32,
    version: u32,
    name: Seq<u8>,
    skeleton: Seq<u8>,
    rest: Seq<u8>,
)
    requires
        kind == 0x200 || kind == 0x280 || kind == 0x2c0,
        fits_field(name, 16),
        fits_field(skeleton, 16),
        rest.len() < 0x1000_0000,
        spelled(name).len() > 0,
        spelled(skeleton).len() > 0,
    ensures
        ({
            let header = ChunkView {
                kind: (kind + 1) as u32,
                data: animation_header(version, name, skeleton, rest),
            };
            let read = animations_of(kind, packed(seq![header]));
            if rest.len() < 8 {
                read is Err
            } else {
                read matches Ok(list) && list.len() == 1 && list[0].name == spelled(skeleton)
                    + "."@ + spelled(name) && list[0].hierarchy == spelled(skeleton)
            }
        }),
{
    let b = animation_header(version, name, skeleton, rest);
    let header = ChunkView { kind: (kind + 1) as u32, data: b };
    let list = seq![header];
    assert(list.drop_first() =~= Seq::empty());
    assert(packed(Seq::empty()).len() == 0);
    assert(packed(list).len() == 8 + b.len());
    law_chunks_read_back(list, 1);
    let w = word_bytes(version);
    law_names_read_back(w, name, 16, padded(skeleton, 16) + rest);
    assert(b =~= w + padded(name, 16) + (padded(skeleton, 16) + rest));
    law_names_read_back(w + padded(name, 16), skeleton, 16, rest);
    reveal_with_fuel(animations_fold, 2);
    assert(list[0] == header);
}

/// The first description of a material is read back: its diffuse color behind eight
/// bytes, and its opacity where the description is long enough to hold one.
pub proof fn law_materials_read_back(
    front: Seq<u8>,
    red: u8,
    green: u8,
    blue: u8,
    middle: Seq<u8>,
    opacity: u32,
    rest: Seq<u8>,
)
    requires
        front.len() == 8,
        middle.len() == 13,
    ensures
        crate::w3d::material_in(
            seq![
                ChunkView {
                    kind: 0x2d,
                    data: front + seq![red, green, blue] + middle + word_bytes(opacity) + rest,
                },
            ],
            0,
        ) == Some(crate::w3d::Material { red, green, blue, opacity: Some(opacity) }),
        crate::w3d::material_in(
            seq![ChunkView { kind: 0x2d, data: front + seq![red, green, blue] + middle }],
            0,
        ) == Some(crate::w3d::Material { red, green, blue, opacity: None }),
{
    let whole = front + seq![red, green, blue] + middle + word_bytes(opacity) + rest;
    let short = front + seq![red, green, blue] + middle;
    assert(whole.subrange(24, 28) =~= word_bytes(opacity));
    crate::laws::w3d::lemma_word_at(whole, 24, opacity);
    assert(whole[8] == red && whole[9] == green && whole[10] == blue);
    assert(short[8] == red && short[9] == green && short[10] == blue);
    assert(short.len() == 24);
    let a = ChunkView { kind: 0x2d, data: whole };
    let b = ChunkView { kind: 0x2d, data: short };
    assert(seq![a][0] == a && seq![b][0] == b);
}

/// A texture is read back by the name in its chunk.
pub proof fn law_texture_names_read_back(name: Seq<u8>, width: int, before: Seq<char>)
    requires
        fits_field(name, width),
    ensures
        crate::w3d::texture_name(
            seq![ChunkView { kind: 0x32, data: padded(name, width) }],
            0,
            before,
        ) == spelled(name),
{
    law_names_read_back(Seq::empty(), name, width, Seq::empty());
    reveal_with_fuel(crate::w3d::texture_name, 2);
    let c = ChunkView { kind: 0x32, data: padded(name, width) };
    assert(seq![c][0] == c);
}

/// A name `Container.Part` is listed whole and by its part; one without a dot is listed
/// once, and a blank one not at all.
pub proof fn law_names_are_listed(container: Seq<char>, part: Seq<char>)
    requires
        crate::laws::text::lacks(part, '.'),
        unblank(part),
        container.len() > 0 ==> unblank(container),
    ensures
        pushed(part) == seq![part],
        container.len() > 0 ==> pushed(container + "."@ + part) == seq![
            container + "."@ + part,
            part,
        ],
        pushed(Seq::empty()).len() == 0,
{
    reveal_strlit(".");
    crate::laws::w3d::lemma_unblank(part);
    crate::laws::text::law_texts_part_at_the_last(container, '.', part);
    assert(container + "."@ + part =~= crate::laws::text::around(container, '.', part));
    if container.len() > 0 {
        let whole = container + "."@ + part;
        assert(whole[0] == container[0]);
        assert(whole.last() == part.last());
        crate::laws::w3d::lemma_unblank(whole);
    }
}

} // verus!
