//! Small, renderer-agnostic reader for Command & Conquer W3D assets.
//!
//! A file is a list of chunks: a little-endian kind, a size and the data.
//! Real numbers are kept as the bit patterns that the file holds.

use vstd::prelude::*;
use vstd::slice::slice_subrange;

use crate::index::{copy_texts, dedup_case_insensitive, dedup_ci, opt_text, push_copies};
use crate::order::views;
use crate::text::{
    eq_ci, join3, rsplit_once, same_ci, split_at_last, texts, trim, trim_both, CharClass,
};

verus! {

pub const MAX_FILE_BYTES: usize = 134_217_728;

pub const MAX_VERTICES: usize = 1_000_000;

pub const MAX_TRIANGLES: usize = 1_000_000;

pub const MAX_CHUNKS_PER_CONTAINER: usize = 1_000_000;

pub const MAX_CHUNK_DEPTH: usize = 16;

/// A model that a file offers.
#[derive(Debug, PartialEq, Eq)]
pub struct ModelCatalogEntry {
    pub name: String,
    pub members: Vec<String>,
    pub hierarchy: Option<String>,
}

/// The model of a [`ModelCatalogEntry`].
pub struct CatalogView {
    pub name: Seq<char>,
    pub members: Seq<Seq<char>>,
    pub hierarchy: Option<Seq<char>>,
}

impl View for ModelCatalogEntry {
    type V = CatalogView;

    open spec fn view(&self) -> CatalogView {
        CatalogView {
            name: self.name@,
            members: texts(self.members@),
            hierarchy: opt_text(self.hierarchy),
        }
    }
}

/// Engine animation name (`Hierarchy.Animation`) and its target skeleton.
#[derive(Debug, PartialEq, Eq)]
pub struct AnimationCatalogEntry {
    pub name: String,
    pub hierarchy: String,
}

/// The model of an [`AnimationCatalogEntry`].
pub struct AnimationEntryView {
    pub name: Seq<char>,
    pub hierarchy: Seq<char>,
}

impl View for AnimationCatalogEntry {
    type V = AnimationEntryView;

    open spec fn view(&self) -> AnimationEntryView {
        AnimationEntryView { name: self.name@, hierarchy: self.hierarchy@ }
    }
}

/// Why a file could not be read.
#[derive(Debug, PartialEq, Eq)]
pub struct W3dError {
    pub message: String,
}

impl W3dError {
    pub fn new(message: &str) -> (r: W3dError)
        ensures
            r.message@ == message@,
    {
        W3dError { message: message.to_owned() }
    }
}

/// What `String::from_utf8_lossy` makes of bytes: their UTF-8 text, with a
/// replacement scalar for each ill-formed sequence.
pub uninterp spec fn lossy_text(bytes: Seq<u8>) -> Seq<char>;

/// Decodes bytes with `String::from_utf8_lossy`. Well-formed UTF-8 is decoded
/// as it is.
#[verifier::external_body]
pub(crate) fn from_lossy(bytes: &[u8]) -> (r: String)
    ensures
        r@ == lossy_text(bytes@),
        vstd::utf8::valid_utf8(bytes@) ==> r@ == vstd::utf8::decode_utf8(bytes@),
{
    String::from_utf8_lossy(bytes).into_owned()
}

/// A chunk of a container.
pub struct Chunk<'a> {
    pub kind: u32,
    pub data: &'a [u8],
}

/// The model of a [`Chunk`].
pub struct ChunkView {
    pub kind: u32,
    pub data: Seq<u8>,
}

pub open spec fn chunk_views(list: Seq<Chunk<'_>>) -> Seq<ChunkView> {
    list.map_values(|c: Chunk<'_>| ChunkView { kind: c.kind, data: c.data@ })
}

/// The little-endian number at `at`.
pub open spec fn le32(b: Seq<u8>, at: int) -> u32 {
    (b[at] + 256 * b[at + 1] + 65536 * b[at + 2] + 16777216 * b[at + 3]) as u32
}

fn read_le32(b: &[u8], at: usize) -> (r: u32)
    requires
        at + 4 <= b.len(),
    ensures
        r == le32(b@, at as int),
{
    let a: u32 = b[at] as u32;
    let c: u32 = b[at + 1] as u32;
    let d: u32 = b[at + 2] as u32;
    let e: u32 = b[at + 3] as u32;
    a + 256 * c + 65536 * d + 16777216 * e
}

/// The low 31 bits of a chunk's size field.
pub open spec fn chunk_size(field: u32) -> int {
    if field >= 0x8000_0000 {
        field - 0x8000_0000
    } else {
        field as int
    }
}

pub open spec fn any_nonzero(b: Seq<u8>, from: int) -> bool {
    exists|i: int| from <= i < b.len() && #[trigger] b[i] != 0
}

/// The chunks from `position` on, when `count` came before them.
pub open spec fn chunks_from(b: Seq<u8>, position: int, count: int) -> Result<
    Seq<ChunkView>,
    Seq<char>,
>
    decreases b.len() - position,
{
    if position < 0 || b.len() - position < 8 {
        if any_nonzero(b, position) {
            Err("trailing bytes after W3D chunk"@)
        } else {
            Ok(Seq::empty())
        }
    } else if count == MAX_CHUNKS_PER_CONTAINER {
        Err("W3D chunk count budget exceeded"@)
    } else {
        let end = position + 8 + chunk_size(le32(b, position + 4));
        if end > b.len() {
            Err("truncated W3D chunk"@)
        } else {
            match chunks_from(b, end, count + 1) {
                Ok(rest) => Ok(
                    seq![
                        ChunkView {
                            kind: le32(b, position),
                            data: b.subrange(position + 8, end),
                        },
                    ] + rest,
                ),
                Err(e) => Err(e),
            }
        }
    }
}

/// The chunks of a container.
pub open spec fn chunks_of(b: Seq<u8>, depth: int) -> Result<Seq<ChunkView>, Seq<char>> {
    if depth > MAX_CHUNK_DEPTH {
        Err("W3D chunk nesting exceeds 16"@)
    } else {
        chunks_from(b, 0, 0)
    }
}

/// Splits a container into its chunks. Zero bytes may pad its end.
pub fn chunks<'a>(bytes: &'a [u8], depth: usize) -> (r: Result<Vec<Chunk<'a>>, W3dError>)
    ensures
        match r {
            Ok(list) => chunks_of(bytes@, depth as int) == Ok::<Seq<ChunkView>, Seq<char>>(
                chunk_views(list@),
            ),
            Err(e) => chunks_of(bytes@, depth as int) == Err::<Seq<ChunkView>, Seq<char>>(
                e.message@,
            ),
        },
{
    if depth > MAX_CHUNK_DEPTH {
        return Err(W3dError::new("W3D chunk nesting exceeds 16"));
    }
    let ghost b = bytes@;
    let mut out: Vec<Chunk<'a>> = Vec::new();
    let mut position: usize = 0;
    while bytes.len() - position >= 8
        invariant
            b == bytes@,
            depth <= MAX_CHUNK_DEPTH,
            position <= bytes.len(),
            out.len() <= MAX_CHUNKS_PER_CONTAINER,
            chunks_of(b, depth as int) == match chunks_from(
                b,
                position as int,
                out@.len() as int,
            ) {
                Ok(rest) => Ok(chunk_views(out@) + rest),
                Err(e) => Err(e),
            },
        decreases bytes.len() - position,
    {
        if out.len() == MAX_CHUNKS_PER_CONTAINER {
            return Err(W3dError::new("W3D chunk count budget exceeded"));
        }
        let kind: u32 = read_le32(bytes, position);
        let field: u32 = read_le32(bytes, position + 4);
        let size: u32 = if field >= 0x8000_0000 {
            field - 0x8000_0000
        } else {
            field
        };
        let start: usize = position + 8;
        if (size as usize) > bytes.len() - start {
            return Err(W3dError::new("truncated W3D chunk"));
        }
        let end: usize = start + (size as usize);
        let data = slice_subrange(bytes, start, end);
        let ghost o0 = chunk_views(out@);
        let ghost before = chunks_from(b, position as int, out@.len() as int);
        let ghost after = chunks_from(b, end as int, out@.len() as int + 1);
        out.push(Chunk { kind, data });
        proof {
            let item = ChunkView { kind, data: data@ };
            assert(chunk_views(out@) =~= o0.push(item));
            if let Ok(rest) = after {
                assert(chunk_views(out@) + rest =~= o0 + (seq![item] + rest));
            }
        }
        position = end;
    }
    let mut i: usize = position;
    while i < bytes.len()
        invariant
            position <= i <= bytes.len(),
            b == bytes@,
            forall|k: int| position <= k < i ==> b[k] == 0,
            chunks_of(b, depth as int) == if any_nonzero(b, position as int) {
                Err("trailing bytes after W3D chunk"@)
            } else {
                Ok(chunk_views(out@) + Seq::<ChunkView>::empty())
            },
        decreases bytes.len() - i,
    {
        if bytes[i] != 0 {
            assert(b[i as int] != 0);
            return Err(W3dError::new("trailing bytes after W3D chunk"));
        }
        i += 1;
    }
    assert(chunk_views(out@) + Seq::<ChunkView>::empty() =~= chunk_views(out@));
    Ok(out)
}

/// The position of the first zero byte, or the length.
pub open spec fn zero_at(b: Seq<u8>, i: int) -> int
    decreases b.len() - i,
{
    if 0 <= i < b.len() && b[i] != 0 {
        zero_at(b, i + 1)
    } else {
        i
    }
}

/// The name in a fixed-size field: up to the first zero byte, trimmed.
pub open spec fn name_text(b: Seq<u8>) -> Seq<char> {
    trim(lossy_text(b.subrange(0, zero_at(b, 0))), CharClass::Space)
}

/// Reads the name in a fixed-size field.
pub fn fixed_name(bytes: &[u8]) -> (r: String)
    ensures
        r@ == name_text(bytes@),
{
    let mut end: usize = 0;
    while end < bytes.len() && bytes[end] != 0
        invariant
            end <= bytes.len(),
            zero_at(bytes@, 0) == zero_at(bytes@, end as int),
        decreases bytes.len() - end,
    {
        end += 1;
    }
    let text = from_lossy(slice_subrange(bytes, 0, end));
    trim_both(text.as_str(), CharClass::Space).to_owned()
}

/// The name in the bytes `from..to`.
pub open spec fn name_in(b: Seq<u8>, from: int, to: int) -> Seq<char> {
    name_text(b.subrange(from, to))
}

fn read_name(bytes: &[u8], from: usize, to: usize) -> (r: String)
    requires
        from <= to <= bytes.len(),
    ensures
        r@ == name_in(bytes@, from as int, to as int),
{
    fixed_name(slice_subrange(bytes, from, to))
}

/// What a name adds to a list: itself, trimmed, and its part after the last
/// dot.
pub open spec fn pushed(name: Seq<char>) -> Seq<Seq<char>> {
    let t = trim(name, CharClass::Space);
    if t.len() == 0 {
        Seq::empty()
    } else {
        match rsplit_once(t, '.') {
            Some((_, short)) => if short.len() > 0 {
                seq![t, short]
            } else {
                seq![t]
            },
            None => seq![t],
        }
    }
}

/// Appends a name and its short form.
pub fn push_name(out: &mut Vec<String>, name: &str)
    ensures
        texts(final(out)@) == texts(old(out)@) + pushed(name@),
{
    let ghost o0 = texts(out@);
    let trimmed = trim_both(name, CharClass::Space);
    if trimmed.is_empty() {
        return;
    }
    out.push(trimmed.to_owned());
    if let Some((_front, short)) = split_at_last(trimmed, '.') {
        if !short.is_empty() {
            out.push(short.to_owned());
        }
    }
    assert(texts(out@) =~= o0 + pushed(name@));
}

/// Whether a reader gave what its model says, value or message.
pub open spec fn gives<T: View>(r: Result<T, W3dError>, s: Result<T::V, Seq<char>>) -> bool {
    match (r, s) {
        (Ok(x), Ok(v)) => x@ == v,
        (Err(e), Err(m)) => e.message@ == m,
        _ => false,
    }
}

/// Three numbers per 12 bytes.
pub open spec fn triples(b: Seq<u8>) -> Seq<(u32, u32, u32)> {
    Seq::new(
        b.len() / 12,
        |i: int| (le32(b, 12 * i), le32(b, 12 * i + 4), le32(b, 12 * i + 8)),
    )
}

pub open spec fn triples_of(b: Seq<u8>) -> Result<Seq<(u32, u32, u32)>, Seq<char>> {
    if b.len() % 12 != 0 {
        Err("invalid vector3 chunk size"@)
    } else {
        Ok(triples(b))
    }
}

fn vec3s(bytes: &[u8]) -> (r: Result<Vec<(u32, u32, u32)>, W3dError>)
    ensures
        gives(r, triples_of(bytes@)),
{
    if bytes.len() % 12 != 0 {
        return Err(W3dError::new("invalid vector3 chunk size"));
    }
    let mut out: Vec<(u32, u32, u32)> = Vec::new();
    let n: usize = bytes.len() / 12;
    let mut i: usize = 0;
    while i < n
        invariant
            i <= n,
            n == bytes@.len() / 12,
            bytes@.len() <= usize::MAX,
            out.len() == i,
            forall|k: int| 0 <= k < i ==> out@[k] == triples(bytes@)[k],
        decreases n - i,
    {
        let at: usize = 12 * i;
        out.push((read_le32(bytes, at), read_le32(bytes, at + 4), read_le32(bytes, at + 8)));
        i += 1;
    }
    assert(out@ =~= triples(bytes@));
    Ok(out)
}

/// Two numbers per 8 bytes.
pub open spec fn pairs(b: Seq<u8>) -> Seq<(u32, u32)> {
    Seq::new(b.len() / 8, |i: int| (le32(b, 8 * i), le32(b, 8 * i + 4)))
}

pub open spec fn pairs_of(b: Seq<u8>) -> Result<Seq<(u32, u32)>, Seq<char>> {
    if b.len() % 8 != 0 {
        Err("invalid vector2 chunk size"@)
    } else {
        Ok(pairs(b))
    }
}

fn vec2s(bytes: &[u8]) -> (r: Result<Vec<(u32, u32)>, W3dError>)
    ensures
        gives(r, pairs_of(bytes@)),
{
    if bytes.len() % 8 != 0 {
        return Err(W3dError::new("invalid vector2 chunk size"));
    }
    let mut out: Vec<(u32, u32)> = Vec::new();
    let n: usize = bytes.len() / 8;
    let mut i: usize = 0;
    while i < n
        invariant
            i <= n,
            n == bytes@.len() / 8,
            bytes@.len() <= usize::MAX,
            out.len() == i,
            forall|k: int| 0 <= k < i ==> out@[k] == pairs(bytes@)[k],
        decreases n - i,
    {
        let at: usize = 8 * i;
        out.push((read_le32(bytes, at), read_le32(bytes, at + 4)));
        i += 1;
    }
    assert(out@ =~= pairs(bytes@));
    Ok(out)
}

/// The vertex indices of each 32-byte triangle.
pub open spec fn triangles(b: Seq<u8>) -> Seq<(u32, u32, u32)> {
    Seq::new(
        b.len() / 32,
        |i: int| (le32(b, 32 * i), le32(b, 32 * i + 4), le32(b, 32 * i + 8)),
    )
}

pub open spec fn triangles_of(b: Seq<u8>) -> Result<Seq<(u32, u32, u32)>, Seq<char>> {
    if b.len() % 32 != 0 {
        Err("invalid triangle chunk size"@)
    } else {
        Ok(triangles(b))
    }
}

fn read_triangles(bytes: &[u8]) -> (r: Result<Vec<(u32, u32, u32)>, W3dError>)
    ensures
        gives(r, triangles_of(bytes@)),
{
    if bytes.len() % 32 != 0 {
        return Err(W3dError::new("invalid triangle chunk size"));
    }
    let mut out: Vec<(u32, u32, u32)> = Vec::new();
    let n: usize = bytes.len() / 32;
    let mut i: usize = 0;
    while i < n
        invariant
            i <= n,
            n == bytes@.len() / 32,
            bytes@.len() <= usize::MAX,
            out.len() == i,
            forall|k: int| 0 <= k < i ==> out@[k] == triangles(bytes@)[k],
        decreases n - i,
    {
        let at: usize = 32 * i;
        out.push((read_le32(bytes, at), read_le32(bytes, at + 4), read_le32(bytes, at + 8)));
        i += 1;
    }
    assert(out@ =~= triangles(bytes@));
    Ok(out)
}

/// The bone of each 8-byte influence.
pub open spec fn influences(b: Seq<u8>) -> Seq<u16> {
    Seq::new(b.len() / 8, |i: int| (b[8 * i] + 256 * b[8 * i + 1]) as u16)
}

pub open spec fn influences_of(b: Seq<u8>) -> Result<Seq<u16>, Seq<char>> {
    if b.len() % 8 != 0 {
        Err("invalid vertex influence chunk size"@)
    } else {
        Ok(influences(b))
    }
}

fn read_influences(bytes: &[u8]) -> (r: Result<Vec<u16>, W3dError>)
    ensures
        gives(r, influences_of(bytes@)),
{
    if bytes.len() % 8 != 0 {
        return Err(W3dError::new("invalid vertex influence chunk size"));
    }
    let mut out: Vec<u16> = Vec::new();
    let n: usize = bytes.len() / 8;
    let mut i: usize = 0;
    while i < n
        invariant
            i <= n,
            n == bytes@.len() / 8,
            bytes@.len() <= usize::MAX,
            out.len() == i,
            forall|k: int| 0 <= k < i ==> out@[k] == influences(bytes@)[k],
        decreases n - i,
    {
        let at: usize = 8 * i;
        let low: u16 = bytes[at] as u16;
        let high: u16 = bytes[at + 1] as u16;
        out.push(low + 256 * high);
        i += 1;
    }
    assert(out@ =~= influences(bytes@));
    Ok(out)
}

/// The numbers of an array.
pub open spec fn words(b: Seq<u8>) -> Seq<u32> {
    Seq::new(b.len() / 4, |i: int| le32(b, 4 * i))
}

pub open spec fn words_of(b: Seq<u8>) -> Result<Seq<u32>, Seq<char>> {
    if b.len() % 4 != 0 {
        Err("invalid u32 array size"@)
    } else {
        Ok(words(b))
    }
}

fn u32s(bytes: &[u8]) -> (r: Result<Vec<u32>, W3dError>)
    ensures
        gives(r, words_of(bytes@)),
{
    if bytes.len() % 4 != 0 {
        return Err(W3dError::new("invalid u32 array size"));
    }
    let mut out: Vec<u32> = Vec::new();
    let n: usize = bytes.len() / 4;
    let mut i: usize = 0;
    while i < n
        invariant
            i <= n,
            n == bytes@.len() / 4,
            bytes@.len() <= usize::MAX,
            out.len() == i,
            forall|k: int| 0 <= k < i ==> out@[k] == words(bytes@)[k],
        decreases n - i,
    {
        out.push(read_le32(bytes, 4 * i));
        i += 1;
    }
    assert(out@ =~= words(bytes@));
    Ok(out)
}

/// The colors of an array.
pub open spec fn colors(b: Seq<u8>) -> Seq<(u8, u8, u8, u8)> {
    Seq::new(b.len() / 4, |i: int| (b[4 * i], b[4 * i + 1], b[4 * i + 2], b[4 * i + 3]))
}

pub open spec fn colors_of(b: Seq<u8>) -> Result<Seq<(u8, u8, u8, u8)>, Seq<char>> {
    if b.len() % 4 != 0 {
        Err("invalid RGBA array size"@)
    } else {
        Ok(colors(b))
    }
}

fn rgba(bytes: &[u8]) -> (r: Result<Vec<(u8, u8, u8, u8)>, W3dError>)
    ensures
        gives(r, colors_of(bytes@)),
{
    if bytes.len() % 4 != 0 {
        return Err(W3dError::new("invalid RGBA array size"));
    }
    let mut out: Vec<(u8, u8, u8, u8)> = Vec::new();
    let n: usize = bytes.len() / 4;
    let mut i: usize = 0;
    while i < n
        invariant
            i <= n,
            n == bytes@.len() / 4,
            bytes@.len() <= usize::MAX,
            out.len() == i,
            forall|k: int| 0 <= k < i ==> out@[k] == colors(bytes@)[k],
        decreases n - i,
    {
        let at: usize = 4 * i;
        out.push((bytes[at], bytes[at + 1], bytes[at + 2], bytes[at + 3]));
        i += 1;
    }
    assert(out@ =~= colors(bytes@));
    Ok(out)
}

/// The colors and texture stage of a material pass.
pub struct MaterialPass {
    pub colors: Vec<(u8, u8, u8, u8)>,
    pub texture_ids: Vec<u32>,
    /// Texture coordinates, as stored (the second axis points down).
    pub uvs: Vec<(u32, u32)>,
    pub per_face_uv_ids: Vec<u32>,
}

/// The model of a [`MaterialPass`].
pub struct PassView {
    pub colors: Seq<(u8, u8, u8, u8)>,
    pub texture_ids: Seq<u32>,
    pub uvs: Seq<(u32, u32)>,
    pub per_face_uv_ids: Seq<u32>,
}

impl View for MaterialPass {
    type V = PassView;

    open spec fn view(&self) -> PassView {
        PassView {
            colors: self.colors@,
            texture_ids: self.texture_ids@,
            uvs: self.uvs@,
            per_face_uv_ids: self.per_face_uv_ids@,
        }
    }
}

pub open spec fn empty_pass() -> PassView {
    PassView {
        colors: Seq::empty(),
        texture_ids: Seq::empty(),
        uvs: Seq::empty(),
        per_face_uv_ids: Seq::empty(),
    }
}

impl MaterialPass {
    fn empty() -> (r: MaterialPass)
        ensures
            r@ == empty_pass(),
    {
        let r = MaterialPass {
            colors: Vec::new(),
            texture_ids: Vec::new(),
            uvs: Vec::new(),
            per_face_uv_ids: Vec::new(),
        };
        assert(r@.colors =~= empty_pass().colors);
        assert(r@.texture_ids =~= empty_pass().texture_ids);
        assert(r@.uvs =~= empty_pass().uvs);
        assert(r@.per_face_uv_ids =~= empty_pass().per_face_uv_ids);
        r
    }
}

/// A texture stage's chunks from `i` on.
pub open spec fn stage_fold(list: Seq<ChunkView>, i: int, p: PassView) -> Result<
    PassView,
    Seq<char>,
>
    decreases list.len() - i,
{
    if i < 0 || i >= list.len() {
        Ok(p)
    } else if list[i].kind == 0x49 {
        match words_of(list[i].data) {
            Ok(v) => stage_fold(list, i + 1, PassView { texture_ids: v, ..p }),
            Err(e) => Err(e),
        }
    } else if list[i].kind == 0x4a {
        match pairs_of(list[i].data) {
            Ok(v) => stage_fold(list, i + 1, PassView { uvs: v, ..p }),
            Err(e) => Err(e),
        }
    } else if list[i].kind == 0x4b {
        match words_of(list[i].data) {
            Ok(v) => stage_fold(list, i + 1, PassView { per_face_uv_ids: v, ..p }),
            Err(e) => Err(e),
        }
    } else {
        stage_fold(list, i + 1, p)
    }
}

pub open spec fn stage_of(b: Seq<u8>, p: PassView) -> Result<PassView, Seq<char>> {
    match chunks_of(b, 3) {
        Ok(list) => stage_fold(list, 0, p),
        Err(e) => Err(e),
    }
}

fn parse_stage(bytes: &[u8], pass: MaterialPass) -> (r: Result<MaterialPass, W3dError>)
    ensures
        gives(r, stage_of(bytes@, pass@)),
{
    let list = match chunks(bytes, 3) {
        Ok(list) => list,
        Err(e) => {
            return Err(e);
        },
    };
    let ghost whole = stage_of(bytes@, pass@);
    let ghost cs = chunk_views(list@);
    let mut p = pass;
    let mut i: usize = 0;
    while i < list.len()
        invariant
            i <= list.len(),
            cs == chunk_views(list@),
            whole == stage_of(bytes@, pass@),
            whole == stage_fold(cs, i as int, p@),
        decreases list.len() - i,
    {
        let data = list[i].data;
        assert(cs[i as int] == (ChunkView { kind: list@[i as int].kind, data: data@ }));
        if list[i].kind == 0x49 {
            match u32s(data) {
                Ok(v) => {
                    p.texture_ids = v;
                },
                Err(e) => {
                    return Err(e);
                },
            }
        } else if list[i].kind == 0x4a {
            match vec2s(data) {
                Ok(v) => {
                    p.uvs = v;
                },
                Err(e) => {
                    return Err(e);
                },
            }
        } else if list[i].kind == 0x4b {
            match u32s(data) {
                Ok(v) => {
                    p.per_face_uv_ids = v;
                },
                Err(e) => {
                    return Err(e);
                },
            }
        }
        i += 1;
    }
    Ok(p)
}

/// A material pass's chunks from `i` on: its colors, and its first texture
/// stage with ids.
pub open spec fn pass_fold(list: Seq<ChunkView>, i: int, p: PassView) -> Result<
    PassView,
    Seq<char>,
>
    decreases list.len() - i,
{
    if i < 0 || i >= list.len() {
        Ok(p)
    } else if list[i].kind == 0x3b {
        match colors_of(list[i].data) {
            Ok(v) => pass_fold(list, i + 1, PassView { colors: v, ..p }),
            Err(e) => Err(e),
        }
    } else if list[i].kind == 0x48 && p.texture_ids.len() == 0 {
        match stage_of(list[i].data, p) {
            Ok(q) => pass_fold(list, i + 1, q),
            Err(e) => Err(e),
        }
    } else {
        pass_fold(list, i + 1, p)
    }
}

pub open spec fn pass_of(b: Seq<u8>) -> Result<PassView, Seq<char>> {
    match chunks_of(b, 2) {
        Ok(list) => pass_fold(list, 0, empty_pass()),
        Err(e) => Err(e),
    }
}

fn parse_material_pass(bytes: &[u8]) -> (r: Result<MaterialPass, W3dError>)
    ensures
        gives(r, pass_of(bytes@)),
{
    let list = match chunks(bytes, 2) {
        Ok(list) => list,
        Err(e) => {
            return Err(e);
        },
    };
    let ghost cs = chunk_views(list@);
    let mut p = MaterialPass::empty();
    let mut i: usize = 0;
    while i < list.len()
        invariant
            i <= list.len(),
            cs == chunk_views(list@),
            pass_of(bytes@) == pass_fold(cs, i as int, p@),
        decreases list.len() - i,
    {
        let data = list[i].data;
        assert(cs[i as int] == (ChunkView { kind: list@[i as int].kind, data: data@ }));
        if list[i].kind == 0x3b {
            match rgba(data) {
                Ok(v) => {
                    p.colors = v;
                },
                Err(e) => {
                    return Err(e);
                },
            }
        } else if list[i].kind == 0x48 && p.texture_ids.len() == 0 {
            match parse_stage(data, p) {
                Ok(q) => {
                    p = q;
                },
                Err(e) => {
                    return Err(e);
                },
            }
        }
        i += 1;
    }
    Ok(p)
}

/// The last texture name among the chunks from `i` on.
pub open spec fn texture_name(list: Seq<ChunkView>, i: int, name: Seq<char>) -> Seq<char>
    decreases list.len() - i,
{
    if i < 0 || i >= list.len() {
        name
    } else if list[i].kind == 0x32 {
        texture_name(list, i + 1, name_text(list[i].data))
    } else {
        texture_name(list, i + 1, name)
    }
}

/// The texture names of the chunks from `i` on.
pub open spec fn textures_fold(list: Seq<ChunkView>, i: int) -> Result<Seq<Seq<char>>, Seq<char>>
    decreases list.len() - i,
{
    if i < 0 || i >= list.len() {
        Ok(Seq::empty())
    } else if list[i].kind == 0x31 {
        match chunks_of(list[i].data, 3) {
            Ok(inner) => match textures_fold(list, i + 1) {
                Ok(rest) => Ok(seq![texture_name(inner, 0, Seq::empty())] + rest),
                Err(e) => Err(e),
            },
            Err(e) => Err(e),
        }
    } else {
        textures_fold(list, i + 1)
    }
}

pub open spec fn textures_of(b: Seq<u8>) -> Result<Seq<Seq<char>>, Seq<char>> {
    match chunks_of(b, 2) {
        Ok(list) => textures_fold(list, 0),
        Err(e) => Err(e),
    }
}

fn read_texture_name(list: &Vec<Chunk<'_>>) -> (r: String)
    ensures
        r@ == texture_name(chunk_views(list@), 0, Seq::empty()),
{
    let ghost cs = chunk_views(list@);
    let mut name = String::new();
    assert(name@ =~= Seq::<char>::empty());
    let mut i: usize = 0;
    while i < list.len()
        invariant
            i <= list.len(),
            cs == chunk_views(list@),
            texture_name(cs, 0, Seq::empty()) == texture_name(cs, i as int, name@),
        decreases list.len() - i,
    {
        assert(cs[i as int] == (ChunkView {
            kind: list@[i as int].kind,
            data: list@[i as int].data@,
        }));
        if list[i].kind == 0x32 {
            name = fixed_name(list[i].data);
        }
        i += 1;
    }
    name
}

/// Whether a reader of texts gave what its model says.
pub open spec fn gives_texts(
    r: Result<Vec<String>, W3dError>,
    s: Result<Seq<Seq<char>>, Seq<char>>,
) -> bool {
    match (r, s) {
        (Ok(x), Ok(v)) => texts(x@) == v,
        (Err(e), Err(m)) => e.message@ == m,
        _ => false,
    }
}

fn parse_textures(bytes: &[u8]) -> (r: Result<Vec<String>, W3dError>)
    ensures
        gives_texts(r, textures_of(bytes@)),
{
    let list = match chunks(bytes, 2) {
        Ok(list) => list,
        Err(e) => {
            return Err(e);
        },
    };
    let ghost cs = chunk_views(list@);
    let ghost whole = textures_of(bytes@);
    let mut out: Vec<String> = Vec::new();
    assert(texts(out@) =~= Seq::<Seq<char>>::empty());
    proof {
        if let Ok(v) = whole {
            assert(texts(out@) + v =~= v);
        }
    }
    let mut i: usize = 0;
    while i < list.len()
        invariant
            i <= list.len(),
            cs == chunk_views(list@),
            whole == textures_of(bytes@),
            whole == match textures_fold(cs, i as int) {
                Ok(rest) => Ok(texts(out@) + rest),
                Err(e) => Err(e),
            },
        decreases list.len() - i,
    {
        let ghost o0 = texts(out@);
        assert(cs[i as int] == (ChunkView {
            kind: list@[i as int].kind,
            data: list@[i as int].data@,
        }));
        if list[i].kind == 0x31 {
            match chunks(list[i].data, 3) {
                Ok(inner) => {
                    let name = read_texture_name(&inner);
                    out.push(name);
                    proof {
                        assert(texts(out@) =~= o0.push(name@));
                        if let Ok(rest) = textures_fold(cs, i + 1) {
                            assert(texts(out@) + rest =~= o0 + (seq![name@] + rest));
                        }
                    }
                },
                Err(e) => {
                    return Err(e);
                },
            }
        }
        i += 1;
    }
    assert(texts(out@) + Seq::<Seq<char>>::empty() =~= texts(out@));
    Ok(out)
}

/// The diffuse color of a material, and its opacity's bit pattern.
pub struct Material {
    pub red: u8,
    pub green: u8,
    pub blue: u8,
    pub opacity: Option<u32>,
}

/// The material that a mesh has before one is read.
pub open spec fn plain_material() -> Material {
    Material { red: 204, green: 204, blue: 204, opacity: None }
}

/// Whether a chunk describes a material.
pub open spec fn describes(c: ChunkView) -> bool {
    c.kind == 0x2d && c.data.len() >= 11
}

/// The first material description among the chunks from `i` on.
pub open spec fn material_in(list: Seq<ChunkView>, i: int) -> Option<Material>
    decreases list.len() - i,
{
    if i < 0 || i >= list.len() {
        None
    } else if describes(list[i]) {
        let d = list[i].data;
        Some(
            Material {
                red: d[8],
                green: d[9],
                blue: d[10],
                opacity: if d.len() >= 28 {
                    Some(le32(d, 24))
                } else {
                    None
                },
            },
        )
    } else {
        material_in(list, i + 1)
    }
}

/// The first material description among the materials from `i` on.
pub open spec fn materials_fold(list: Seq<ChunkView>, i: int) -> Result<Option<Material>, Seq<char>>
    decreases list.len() - i,
{
    if i < 0 || i >= list.len() {
        Ok(None)
    } else if list[i].kind == 0x2b {
        match chunks_of(list[i].data, 3) {
            Ok(inner) => match material_in(inner, 0) {
                Some(m) => Ok(Some(m)),
                None => materials_fold(list, i + 1),
            },
            Err(e) => Err(e),
        }
    } else {
        materials_fold(list, i + 1)
    }
}

pub open spec fn materials_of(b: Seq<u8>) -> Result<Option<Material>, Seq<char>> {
    match chunks_of(b, 2) {
        Ok(list) => materials_fold(list, 0),
        Err(e) => Err(e),
    }
}

fn find_material(list: &Vec<Chunk<'_>>) -> (r: Option<Material>)
    ensures
        r == material_in(chunk_views(list@), 0),
{
    let ghost cs = chunk_views(list@);
    let mut i: usize = 0;
    while i < list.len()
        invariant
            i <= list.len(),
            cs == chunk_views(list@),
            material_in(cs, 0) == material_in(cs, i as int),
        decreases list.len() - i,
    {
        let d = list[i].data;
        assert(cs[i as int] == (ChunkView { kind: list@[i as int].kind, data: d@ }));
        if list[i].kind == 0x2d && d.len() >= 11 {
            let opacity: Option<u32> = if d.len() >= 28 {
                Some(read_le32(d, 24))
            } else {
                None
            };
            return Some(Material { red: d[8], green: d[9], blue: d[10], opacity });
        }
        i += 1;
    }
    None
}

fn parse_vertex_materials(bytes: &[u8]) -> (r: Result<Option<Material>, W3dError>)
    ensures
        match (r, materials_of(bytes@)) {
            (Ok(x), Ok(v)) => x == v,
            (Err(e), Err(m)) => e.message@ == m,
            _ => false,
        },
{
    let list = match chunks(bytes, 2) {
        Ok(list) => list,
        Err(e) => {
            return Err(e);
        },
    };
    let ghost cs = chunk_views(list@);
    let mut i: usize = 0;
    while i < list.len()
        invariant
            i <= list.len(),
            cs == chunk_views(list@),
            materials_of(bytes@) == materials_fold(cs, i as int),
        decreases list.len() - i,
    {
        assert(cs[i as int] == (ChunkView {
            kind: list@[i as int].kind,
            data: list@[i as int].data@,
        }));
        if list[i].kind == 0x2b {
            match chunks(list[i].data, 3) {
                Ok(inner) => {
                    let found = find_material(&inner);
                    if found.is_some() {
                        return Ok(found);
                    }
                },
                Err(e) => {
                    return Err(e);
                },
            }
        }
        i += 1;
    }
    Ok(None)
}

/// A mesh.
pub struct Mesh {
    pub name: String,
    pub container: String,
    pub attributes: u32,
    pub vertices: Vec<(u32, u32, u32)>,
    pub normals: Vec<(u32, u32, u32)>,
    pub uvs: Vec<(u32, u32)>,
    pub triangles: Vec<(u32, u32, u32)>,
    pub influences: Vec<u16>,
    pub colors: Vec<(u8, u8, u8, u8)>,
    pub material: Material,
    pub textures: Vec<String>,
    pub pass: MaterialPass,
}

/// The model of a [`Mesh`].
pub struct MeshView {
    pub name: Seq<char>,
    pub container: Seq<char>,
    pub attributes: u32,
    pub vertices: Seq<(u32, u32, u32)>,
    pub normals: Seq<(u32, u32, u32)>,
    pub uvs: Seq<(u32, u32)>,
    pub triangles: Seq<(u32, u32, u32)>,
    pub influences: Seq<u16>,
    pub colors: Seq<(u8, u8, u8, u8)>,
    pub material: Material,
    pub textures: Seq<Seq<char>>,
    pub pass: PassView,
}

impl View for Mesh {
    type V = MeshView;

    open spec fn view(&self) -> MeshView {
        MeshView {
            name: self.name@,
            container: self.container@,
            attributes: self.attributes,
            vertices: self.vertices@,
            normals: self.normals@,
            uvs: self.uvs@,
            triangles: self.triangles@,
            influences: self.influences@,
            colors: self.colors@,
            material: self.material,
            textures: texts(self.textures@),
            pass: self.pass@,
        }
    }
}

pub open spec fn empty_mesh() -> MeshView {
    MeshView {
        name: Seq::empty(),
        container: Seq::empty(),
        attributes: 0,
        vertices: Seq::empty(),
        normals: Seq::empty(),
        uvs: Seq::empty(),
        triangles: Seq::empty(),
        influences: Seq::empty(),
        colors: Seq::empty(),
        material: plain_material(),
        textures: Seq::empty(),
        pass: empty_pass(),
    }
}

/// A mesh after one more chunk.
pub open spec fn mesh_step(c: ChunkView, m: MeshView) -> Result<MeshView, Seq<char>> {
    let b = c.data;
    if c.kind == 0x1f && b.len() >= 40 {
        Ok(
            MeshView {
                attributes: le32(b, 4),
                name: name_in(b, 8, 24),
                container: name_in(b, 24, 40),
                ..m
            },
        )
    } else if c.kind == 0x02 {
        match triples_of(b) {
            Ok(v) => Ok(MeshView { vertices: v, ..m }),
            Err(e) => Err(e),
        }
    } else if c.kind == 0x03 {
        match triples_of(b) {
            Ok(v) => Ok(MeshView { normals: v, ..m }),
            Err(e) => Err(e),
        }
    } else if c.kind == 0x0d {
        match pairs_of(b) {
            Ok(v) => Ok(MeshView { uvs: v, ..m }),
            Err(e) => Err(e),
        }
    } else if c.kind == 0x20 {
        match triangles_of(b) {
            Ok(v) => Ok(MeshView { triangles: v, ..m }),
            Err(e) => Err(e),
        }
    } else if c.kind == 0x0e {
        match influences_of(b) {
            Ok(v) => Ok(MeshView { influences: v, ..m }),
            Err(e) => Err(e),
        }
    } else if c.kind == 0x115 {
        match colors_of(b) {
            Ok(v) => Ok(MeshView { colors: v, ..m }),
            Err(e) => Err(e),
        }
    } else if c.kind == 0x2a {
        match materials_of(b) {
            Ok(Some(material)) => Ok(
                MeshView {
                    material: Material {
                        opacity: if material.opacity is Some {
                            material.opacity
                        } else {
                            m.material.opacity
                        },
                        ..material
                    },
                    ..m
                },
            ),
            Ok(None) => Ok(m),
            Err(e) => Err(e),
        }
    } else if c.kind == 0x30 {
        match textures_of(b) {
            Ok(v) => Ok(MeshView { textures: v, ..m }),
            Err(e) => Err(e),
        }
    } else if c.kind == 0x38 && m.pass.texture_ids.len() == 0 {
        match pass_of(b) {
            Ok(v) => Ok(MeshView { pass: v, ..m }),
            Err(e) => Err(e),
        }
    } else {
        Ok(m)
    }
}

/// A mesh after the chunks from `i` on.
pub open spec fn mesh_fold(list: Seq<ChunkView>, i: int, m: MeshView) -> Result<MeshView, Seq<char>>
    decreases list.len() - i,
{
    if i < 0 || i >= list.len() {
        Ok(m)
    } else {
        match mesh_step(list[i], m) {
            Ok(next) => mesh_fold(list, i + 1, next),
            Err(e) => Err(e),
        }
    }
}

pub open spec fn mesh_of(b: Seq<u8>) -> Result<MeshView, Seq<char>> {
    match chunks_of(b, 1) {
        Ok(list) => mesh_fold(list, 0, empty_mesh()),
        Err(e) => Err(e),
    }
}

fn add_mesh_chunk(kind: u32, data: &[u8], mesh: Mesh) -> (r: Result<Mesh, W3dError>)
    ensures
        gives(r, mesh_step(ChunkView { kind, data: data@ }, mesh@)),
{
    let mut m = mesh;
    if kind == 0x1f && data.len() >= 40 {
        m.attributes = read_le32(data, 4);
        m.name = read_name(data, 8, 24);
        m.container = read_name(data, 24, 40);
    } else if kind == 0x02 {
        match vec3s(data) {
            Ok(v) => {
                m.vertices = v;
            },
            Err(e) => {
                return Err(e);
            },
        }
    } else if kind == 0x03 {
        match vec3s(data) {
            Ok(v) => {
                m.normals = v;
            },
            Err(e) => {
                return Err(e);
            },
        }
    } else if kind == 0x0d {
        match vec2s(data) {
            Ok(v) => {
                m.uvs = v;
            },
            Err(e) => {
                return Err(e);
            },
        }
    } else if kind == 0x20 {
        match read_triangles(data) {
            Ok(v) => {
                m.triangles = v;
            },
            Err(e) => {
                return Err(e);
            },
        }
    } else if kind == 0x0e {
        match read_influences(data) {
            Ok(v) => {
                m.influences = v;
            },
            Err(e) => {
                return Err(e);
            },
        }
    } else if kind == 0x115 {
        match rgba(data) {
            Ok(v) => {
                m.colors = v;
            },
            Err(e) => {
                return Err(e);
            },
        }
    } else if kind == 0x2a {
        match parse_vertex_materials(data) {
            Ok(found) => {
                if let Some(material) = found {
                    let opacity: Option<u32> = if material.opacity.is_some() {
                        material.opacity
                    } else {
                        m.material.opacity
                    };
                    m.material = Material {
                        red: material.red,
                        green: material.green,
                        blue: material.blue,
                        opacity,
                    };
                }
            },
            Err(e) => {
                return Err(e);
            },
        }
    } else if kind == 0x30 {
        match parse_textures(data) {
            Ok(v) => {
                m.textures = v;
            },
            Err(e) => {
                return Err(e);
            },
        }
    } else if kind == 0x38 && m.pass.texture_ids.len() == 0 {
        match parse_material_pass(data) {
            Ok(v) => {
                m.pass = v;
            },
            Err(e) => {
                return Err(e);
            },
        }
    }
    Ok(m)
}

/// Reads a mesh container.
pub fn parse_mesh(bytes: &[u8]) -> (r: Result<Mesh, W3dError>)
    ensures
        gives(r, mesh_of(bytes@)),
{
    let list = match chunks(bytes, 1) {
        Ok(list) => list,
        Err(e) => {
            return Err(e);
        },
    };
    let ghost cs = chunk_views(list@);
    let mut m = Mesh {
        name: String::new(),
        container: String::new(),
        attributes: 0,
        vertices: Vec::new(),
        normals: Vec::new(),
        uvs: Vec::new(),
        triangles: Vec::new(),
        influences: Vec::new(),
        colors: Vec::new(),
        material: Material { red: 204, green: 204, blue: 204, opacity: None },
        textures: Vec::new(),
        pass: MaterialPass::empty(),
    };
    proof {
        let e = empty_mesh();
        assert(m@.name =~= e.name);
        assert(m@.container =~= e.container);
        assert(m@.vertices =~= e.vertices);
        assert(m@.normals =~= e.normals);
        assert(m@.uvs =~= e.uvs);
        assert(m@.triangles =~= e.triangles);
        assert(m@.influences =~= e.influences);
        assert(m@.colors =~= e.colors);
        assert(m@.textures =~= e.textures);
        assert(m@ == e);
    }
    let mut i: usize = 0;
    while i < list.len()
        invariant
            i <= list.len(),
            cs == chunk_views(list@),
            mesh_of(bytes@) == mesh_fold(cs, i as int, m@),
        decreases list.len() - i,
    {
        assert(cs[i as int] == (ChunkView {
            kind: list@[i as int].kind,
            data: list@[i as int].data@,
        }));
        match add_mesh_chunk(list[i].kind, list[i].data, m) {
            Ok(next) => {
                m = next;
            },
            Err(e) => {
                return Err(e);
            },
        }
        i += 1;
    }
    Ok(m)
}

/// A pivot of a skeleton.
pub struct Pivot {
    pub name: String,
    pub parent: Option<usize>,
    pub translation: (u32, u32, u32),
    /// The rotation, as stored.
    pub rotation: (u32, u32, u32, u32),
}

/// The model of a [`Pivot`].
pub struct PivotView {
    pub name: Seq<char>,
    pub parent: Option<usize>,
    pub translation: (u32, u32, u32),
    pub rotation: (u32, u32, u32, u32),
}

impl View for Pivot {
    type V = PivotView;

    open spec fn view(&self) -> PivotView {
        PivotView {
            name: self.name@,
            parent: self.parent,
            translation: self.translation,
            rotation: self.rotation,
        }
    }
}

/// A skeleton.
pub struct Hierarchy {
    pub name: String,
    pub pivots: Vec<Pivot>,
}

/// The model of a [`Hierarchy`].
pub struct HierarchyView {
    pub name: Seq<char>,
    pub pivots: Seq<PivotView>,
}

impl View for Hierarchy {
    type V = HierarchyView;

    open spec fn view(&self) -> HierarchyView {
        HierarchyView { name: self.name@, pivots: views(self.pivots@) }
    }
}

/// The pivot in 60 bytes from `at` on. A parent of all ones is none.
pub open spec fn pivot_at(b: Seq<u8>, at: int) -> PivotView {
    let parent = le32(b, at + 16);
    PivotView {
        name: name_in(b, at, at + 16),
        parent: if parent != u32::MAX {
            Some(parent as usize)
        } else {
            None
        },
        translation: (le32(b, at + 20), le32(b, at + 24), le32(b, at + 28)),
        rotation: (le32(b, at + 44), le32(b, at + 48), le32(b, at + 52), le32(b, at + 56)),
    }
}

pub open spec fn pivots_in(b: Seq<u8>) -> Seq<PivotView> {
    Seq::new(b.len() / 60, |i: int| pivot_at(b, 60 * i))
}

fn read_pivots(out: &mut Vec<Pivot>, b: &[u8])
    ensures
        views(final(out)@) == views(old(out)@) + pivots_in(b@),
{
    let n: usize = b.len() / 60;
    let mut i: usize = 0;
    while i < n
        invariant
            i <= n,
            n == b@.len() / 60,
            b@.len() <= usize::MAX,
            views(out@) == views(old(out)@) + pivots_in(b@).take(i as int),
        decreases n - i,
    {
        let at: usize = 60 * i;
        let parent: u32 = read_le32(b, at + 16);
        let ghost before = views(out@);
        out.push(
            Pivot {
                name: read_name(b, at, at + 16),
                parent: if parent != u32::MAX {
                    Some(parent as usize)
                } else {
                    None
                },
                translation: (read_le32(b, at + 20), read_le32(b, at + 24), read_le32(b, at + 28)),
                rotation: (
                    read_le32(b, at + 44),
                    read_le32(b, at + 48),
                    read_le32(b, at + 52),
                    read_le32(b, at + 56),
                ),
            },
        );
        assert(views(out@) =~= before.push(pivots_in(b@)[i as int]));
        i += 1;
        assert(pivots_in(b@).take(i as int) =~= pivots_in(b@).take(i - 1).push(
            pivots_in(b@)[i - 1],
        ));
    }
    assert(pivots_in(b@).take(i as int) =~= pivots_in(b@));
}

/// A skeleton after its chunks from `i` on.
pub open spec fn hierarchy_fold(list: Seq<ChunkView>, i: int, h: HierarchyView) -> Result<
    HierarchyView,
    Seq<char>,
>
    decreases list.len() - i,
{
    if i < 0 || i >= list.len() {
        Ok(h)
    } else if list[i].kind == 0x101 && list[i].data.len() >= 20 {
        hierarchy_fold(list, i + 1, HierarchyView { name: name_in(list[i].data, 4, 20), ..h })
    } else if list[i].kind == 0x102 {
        if list[i].data.len() % 60 != 0 {
            Err("invalid pivot chunk size"@)
        } else {
            hierarchy_fold(
                list,
                i + 1,
                HierarchyView { pivots: h.pivots + pivots_in(list[i].data), ..h },
            )
        }
    } else {
        hierarchy_fold(list, i + 1, h)
    }
}

pub open spec fn hierarchy_of(b: Seq<u8>) -> Result<HierarchyView, Seq<char>> {
    match chunks_of(b, 1) {
        Ok(list) => hierarchy_fold(
            list,
            0,
            HierarchyView { name: Seq::empty(), pivots: Seq::empty() },
        ),
        Err(e) => Err(e),
    }
}

/// Reads a skeleton container.
pub fn parse_hierarchy(bytes: &[u8]) -> (r: Result<Hierarchy, W3dError>)
    ensures
        gives(r, hierarchy_of(bytes@)),
{
    let list = match chunks(bytes, 1) {
        Ok(list) => list,
        Err(e) => {
            return Err(e);
        },
    };
    let ghost cs = chunk_views(list@);
    let mut h = Hierarchy { name: String::new(), pivots: Vec::new() };
    assert(h@.name =~= Seq::<char>::empty());
    assert(h@.pivots =~= Seq::<PivotView>::empty());
    let mut i: usize = 0;
    while i < list.len()
        invariant
            i <= list.len(),
            cs == chunk_views(list@),
            hierarchy_of(bytes@) == hierarchy_fold(cs, i as int, h@),
        decreases list.len() - i,
    {
        let data = list[i].data;
        assert(cs[i as int] == (ChunkView { kind: list@[i as int].kind, data: data@ }));
        if list[i].kind == 0x101 && data.len() >= 20 {
            h.name = read_name(data, 4, 20);
        } else if list[i].kind == 0x102 {
            if data.len() % 60 != 0 {
                return Err(W3dError::new("invalid pivot chunk size"));
            }
            read_pivots(&mut h.pivots, data);
        }
        i += 1;
    }
    Ok(h)
}

/// A part of a model, on a bone.
pub struct SubObject {
    pub bone: usize,
    pub name: String,
}

/// The model of a [`SubObject`].
pub struct SubObjectView {
    pub bone: usize,
    pub name: Seq<char>,
}

impl View for SubObject {
    type V = SubObjectView;

    open spec fn view(&self) -> SubObjectView {
        SubObjectView { bone: self.bone, name: self.name@ }
    }
}

pub open spec fn subobject_of(b: Seq<u8>) -> Result<SubObjectView, Seq<char>> {
    if b.len() < 36 {
        Err("invalid HLOD subobject"@)
    } else {
        Ok(SubObjectView { bone: le32(b, 0) as usize, name: name_in(b, 4, 36) })
    }
}

fn parse_subobject(bytes: &[u8]) -> (r: Result<SubObject, W3dError>)
    ensures
        gives(r, subobject_of(bytes@)),
{
    if bytes.len() < 36 {
        return Err(W3dError::new("invalid HLOD subobject"));
    }
    Ok(SubObject { bone: read_le32(bytes, 0) as usize, name: read_name(bytes, 4, 36) })
}

/// The parts among the chunks from `i` on.
pub open spec fn subobjects_fold(list: Seq<ChunkView>, i: int) -> Result<
    Seq<SubObjectView>,
    Seq<char>,
>
    decreases list.len() - i,
{
    if i < 0 || i >= list.len() {
        Ok(Seq::empty())
    } else if list[i].kind == 0x704 {
        match subobject_of(list[i].data) {
            Ok(v) => match subobjects_fold(list, i + 1) {
                Ok(rest) => Ok(seq![v] + rest),
                Err(e) => Err(e),
            },
            Err(e) => Err(e),
        }
    } else {
        subobjects_fold(list, i + 1)
    }
}

pub open spec fn subobjects_of(b: Seq<u8>, depth: int) -> Result<Seq<SubObjectView>, Seq<char>> {
    match chunks_of(b, depth) {
        Ok(list) => subobjects_fold(list, 0),
        Err(e) => Err(e),
    }
}

/// Whether a reader of a list gave what its model says.
pub open spec fn gives_list<T: View>(
    r: Result<Vec<T>, W3dError>,
    s: Result<Seq<T::V>, Seq<char>>,
) -> bool {
    match (r, s) {
        (Ok(x), Ok(v)) => views(x@) == v,
        (Err(e), Err(m)) => e.message@ == m,
        _ => false,
    }
}

fn parse_subobjects(bytes: &[u8], depth: usize) -> (r: Result<Vec<SubObject>, W3dError>)
    ensures
        gives_list(r, subobjects_of(bytes@, depth as int)),
{
    let list = match chunks(bytes, depth) {
        Ok(list) => list,
        Err(e) => {
            return Err(e);
        },
    };
    let ghost cs = chunk_views(list@);
    let ghost whole = subobjects_of(bytes@, depth as int);
    let mut out: Vec<SubObject> = Vec::new();
    proof {
        if let Ok(v) = whole {
            assert(views(out@) + v =~= v);
        }
    }
    let mut i: usize = 0;
    while i < list.len()
        invariant
            i <= list.len(),
            cs == chunk_views(list@),
            whole == subobjects_of(bytes@, depth as int),
            whole == match subobjects_fold(cs, i as int) {
                Ok(rest) => Ok(views(out@) + rest),
                Err(e) => Err(e),
            },
        decreases list.len() - i,
    {
        let ghost o0 = views(out@);
        assert(cs[i as int] == (ChunkView {
            kind: list@[i as int].kind,
            data: list@[i as int].data@,
        }));
        if list[i].kind == 0x704 {
            match parse_subobject(list[i].data) {
                Ok(v) => {
                    let ghost vv = v@;
                    out.push(v);
                    proof {
                        assert(views(out@) =~= o0.push(vv));
                        if let Ok(rest) = subobjects_fold(cs, i + 1) {
                            assert(views(out@) + rest =~= o0 + (seq![vv] + rest));
                        }
                    }
                },
                Err(e) => {
                    return Err(e);
                },
            }
        }
        i += 1;
    }
    assert(views(out@) + Seq::<SubObjectView>::empty() =~= views(out@));
    Ok(out)
}

/// A level of detail.
pub struct Lod {
    /// The largest screen size that it is shown at, as a bit pattern.
    pub max_screen_size: u32,
    pub subobjects: Vec<SubObject>,
}

/// The model of a [`Lod`].
pub struct LodView {
    pub max_screen_size: u32,
    pub subobjects: Seq<SubObjectView>,
}

impl View for Lod {
    type V = LodView;

    open spec fn view(&self) -> LodView {
        LodView { max_screen_size: self.max_screen_size, subobjects: views(self.subobjects@) }
    }
}

/// A level of detail after its chunks from `i` on.
pub open spec fn lod_fold(list: Seq<ChunkView>, i: int, l: LodView) -> Result<LodView, Seq<char>>
    decreases list.len() - i,
{
    if i < 0 || i >= list.len() {
        Ok(l)
    } else if list[i].kind == 0x703 && list[i].data.len() >= 8 {
        lod_fold(list, i + 1, LodView { max_screen_size: le32(list[i].data, 4), ..l })
    } else if list[i].kind == 0x704 {
        match subobject_of(list[i].data) {
            Ok(v) => lod_fold(list, i + 1, LodView { subobjects: l.subobjects.push(v), ..l }),
            Err(e) => Err(e),
        }
    } else {
        lod_fold(list, i + 1, l)
    }
}

pub open spec fn lod_of(b: Seq<u8>) -> Result<LodView, Seq<char>> {
    match chunks_of(b, 2) {
        Ok(list) => lod_fold(list, 0, LodView { max_screen_size: 0, subobjects: Seq::empty() }),
        Err(e) => Err(e),
    }
}

fn parse_lod(bytes: &[u8]) -> (r: Result<Lod, W3dError>)
    ensures
        gives(r, lod_of(bytes@)),
{
    let list = match chunks(bytes, 2) {
        Ok(list) => list,
        Err(e) => {
            return Err(e);
        },
    };
    let ghost cs = chunk_views(list@);
    let mut l = Lod { max_screen_size: 0, subobjects: Vec::new() };
    assert(l@.subobjects =~= Seq::<SubObjectView>::empty());
    let mut i: usize = 0;
    while i < list.len()
        invariant
            i <= list.len(),
            cs == chunk_views(list@),
            lod_of(bytes@) == lod_fold(cs, i as int, l@),
        decreases list.len() - i,
    {
        let data = list[i].data;
        assert(cs[i as int] == (ChunkView { kind: list@[i as int].kind, data: data@ }));
        if list[i].kind == 0x703 && data.len() >= 8 {
            l.max_screen_size = read_le32(data, 4);
        } else if list[i].kind == 0x704 {
            match parse_subobject(data) {
                Ok(v) => {
                    let ghost o0 = views(l.subobjects@);
                    let ghost vv = v@;
                    l.subobjects.push(v);
                    assert(views(l.subobjects@) =~= o0.push(vv));
                },
                Err(e) => {
                    return Err(e);
                },
            }
        }
        i += 1;
    }
    Ok(l)
}

/// A model made of levels of detail on a skeleton.
pub struct Hlod {
    pub name: String,
    pub hierarchy: String,
    pub lods: Vec<Lod>,
    pub aggregates: Vec<SubObject>,
}

/// The model of an [`Hlod`].
pub struct HlodView {
    pub name: Seq<char>,
    pub hierarchy: Seq<char>,
    pub lods: Seq<LodView>,
    pub aggregates: Seq<SubObjectView>,
}

impl View for Hlod {
    type V = HlodView;

    open spec fn view(&self) -> HlodView {
        HlodView {
            name: self.name@,
            hierarchy: self.hierarchy@,
            lods: views(self.lods@),
            aggregates: views(self.aggregates@),
        }
    }
}

/// A model after its chunks from `i` on.
pub open spec fn hlod_fold(list: Seq<ChunkView>, i: int, h: HlodView) -> Result<HlodView, Seq<char>>
    decreases list.len() - i,
{
    if i < 0 || i >= list.len() {
        Ok(h)
    } else if list[i].kind == 0x701 && list[i].data.len() >= 40 {
        hlod_fold(
            list,
            i + 1,
            HlodView {
                name: name_in(list[i].data, 8, 24),
                hierarchy: name_in(list[i].data, 24, 40),
                ..h
            },
        )
    } else if list[i].kind == 0x702 {
        match lod_of(list[i].data) {
            Ok(v) => hlod_fold(list, i + 1, HlodView { lods: h.lods.push(v), ..h }),
            Err(e) => Err(e),
        }
    } else if list[i].kind == 0x705 {
        match subobjects_of(list[i].data, 2) {
            Ok(v) => hlod_fold(list, i + 1, HlodView { aggregates: v, ..h }),
            Err(e) => Err(e),
        }
    } else {
        hlod_fold(list, i + 1, h)
    }
}

pub open spec fn hlod_of(b: Seq<u8>) -> Result<HlodView, Seq<char>> {
    match chunks_of(b, 1) {
        Ok(list) => hlod_fold(
            list,
            0,
            HlodView {
                name: Seq::empty(),
                hierarchy: Seq::empty(),
                lods: Seq::empty(),
                aggregates: Seq::empty(),
            },
        ),
        Err(e) => Err(e),
    }
}

/// Reads a level-of-detail model container.
pub fn parse_hlod(bytes: &[u8]) -> (r: Result<Hlod, W3dError>)
    ensures
        gives(r, hlod_of(bytes@)),
{
    let list = match chunks(bytes, 1) {
        Ok(list) => list,
        Err(e) => {
            return Err(e);
        },
    };
    let ghost cs = chunk_views(list@);
    let mut h = Hlod {
        name: String::new(),
        hierarchy: String::new(),
        lods: Vec::new(),
        aggregates: Vec::new(),
    };
    assert(h@.name =~= Seq::<char>::empty());
    assert(h@.hierarchy =~= Seq::<char>::empty());
    assert(h@.lods =~= Seq::<LodView>::empty());
    assert(h@.aggregates =~= Seq::<SubObjectView>::empty());
    let mut i: usize = 0;
    while i < list.len()
        invariant
            i <= list.len(),
            cs == chunk_views(list@),
            hlod_of(bytes@) == hlod_fold(cs, i as int, h@),
        decreases list.len() - i,
    {
        let data = list[i].data;
        assert(cs[i as int] == (ChunkView { kind: list@[i as int].kind, data: data@ }));
        if list[i].kind == 0x701 && data.len() >= 40 {
            h.name = read_name(data, 8, 24);
            h.hierarchy = read_name(data, 24, 40);
        } else if list[i].kind == 0x702 {
            match parse_lod(data) {
                Ok(v) => {
                    let ghost o0 = views(h.lods@);
                    let ghost vv = v@;
                    h.lods.push(v);
                    assert(views(h.lods@) =~= o0.push(vv));
                },
                Err(e) => {
                    return Err(e);
                },
            }
        } else if list[i].kind == 0x705 {
            match parse_subobjects(data, 2) {
                Ok(v) => {
                    h.aggregates = v;
                },
                Err(e) => {
                    return Err(e);
                },
            }
        }
        i += 1;
    }
    Ok(h)
}

/// Whether a chunk holds chunks.
pub open spec fn contains_chunks(kind: u32) -> bool {
    kind == 0x00 || kind == 0x2a || kind == 0x2b || kind == 0x30 || kind == 0x31 || kind == 0x38
        || kind == 0x48 || kind == 0x100 || kind == 0x700 || kind == 0x702 || kind == 0x705 || kind
        == 0x500 || kind == 0x600
}

fn is_container(kind: u32) -> (r: bool)
    ensures
        r == contains_chunks(kind),
{
    kind == 0x00 || kind == 0x2a || kind == 0x2b || kind == 0x30 || kind == 0x31 || kind == 0x38
        || kind == 0x48 || kind == 0x100 || kind == 0x700 || kind == 0x702 || kind == 0x705 || kind
        == 0x500 || kind == 0x600
}

/// Names of models, and names of their members.
pub struct NamesView {
    pub names: Seq<Seq<char>>,
    pub members: Seq<Seq<char>>,
}

pub open spec fn no_names() -> NamesView {
    NamesView { names: Seq::empty(), members: Seq::empty() }
}

pub open spec fn both(a: NamesView, b: NamesView) -> NamesView {
    NamesView { names: a.names + b.names, members: a.members + b.members }
}

/// The names of the pivots from the `i`th on.
pub open spec fn pivot_names(b: Seq<u8>, i: int) -> Seq<Seq<char>>
    decreases b.len() / 60 - i,
{
    if i < 0 || i >= b.len() / 60 {
        Seq::empty()
    } else {
        pushed(name_in(b, 60 * i, 60 * i + 16)) + pivot_names(b, i + 1)
    }
}

/// The names that a chunk itself holds.
pub open spec fn own_names(kind: u32, b: Seq<u8>) -> NamesView {
    let none = Seq::<Seq<char>>::empty();
    if kind == 0x1f && b.len() >= 40 {
        NamesView { members: pushed(name_in(b, 8, 24)), names: pushed(name_in(b, 24, 40)) }
    } else if (kind == 0x101 || kind == 0x501 || kind == 0x601) && b.len() >= 20 {
        NamesView { names: pushed(name_in(b, 4, 20)), members: none }
    } else if kind == 0x102 {
        NamesView { names: none, members: pivot_names(b, 0) }
    } else if kind == 0x701 && b.len() >= 40 {
        NamesView {
            names: pushed(name_in(b, 8, 24)) + pushed(name_in(b, 24, 40)),
            members: none,
        }
    } else if kind == 0x704 && b.len() >= 36 {
        NamesView { names: none, members: pushed(name_in(b, 4, 36)) }
    } else if kind == 0x740 && b.len() >= 40 {
        NamesView { names: none, members: pushed(name_in(b, 8, 40)) }
    } else if kind == 0x750 && b.len() >= 48 {
        NamesView { names: none, members: pushed(name_in(b, 16, 48)) }
    } else {
        no_names()
    }
}

/// The names that a chunk and the chunks in it hold.
pub open spec fn names_under(kind: u32, b: Seq<u8>, depth: int) -> Result<NamesView, Seq<char>>
    decreases MAX_CHUNK_DEPTH + 1 - depth, 0int,
{
    if depth >= MAX_CHUNK_DEPTH || !contains_chunks(kind) {
        Ok(own_names(kind, b))
    } else {
        match chunks_of(b, depth + 1) {
            Ok(list) => match names_among(list, 0, depth + 1) {
                Ok(rest) => Ok(both(own_names(kind, b), rest)),
                Err(e) => Err(e),
            },
            Err(e) => Err(e),
        }
    }
}

/// The names under the chunks from `i` on.
pub open spec fn names_among(list: Seq<ChunkView>, i: int, depth: int) -> Result<
    NamesView,
    Seq<char>,
>
    decreases MAX_CHUNK_DEPTH + 1 - depth, list.len() - i + 1,
{
    if i < 0 || i >= list.len() {
        Ok(no_names())
    } else {
        match names_under(list[i].kind, list[i].data, depth) {
            Ok(here) => match names_among(list, i + 1, depth) {
                Ok(rest) => Ok(both(here, rest)),
                Err(e) => Err(e),
            },
            Err(e) => Err(e),
        }
    }
}

fn push_pivot_names(members: &mut Vec<String>, b: &[u8])
    ensures
        texts(final(members)@) == texts(old(members)@) + pivot_names(b@, 0),
{
    let ghost start = texts(members@);
    let ghost whole = start + pivot_names(b@, 0);
    let n: usize = b.len() / 60;
    let mut i: usize = 0;
    while i < n
        invariant
            i <= n,
            n == b@.len() / 60,
            b@.len() <= usize::MAX,
            texts(members@) + pivot_names(b@, i as int) == whole,
        decreases n - i,
    {
        let ghost before = texts(members@);
        let name = read_name(b, 60 * i, 60 * i + 16);
        push_name(members, name.as_str());
        assert(texts(members@) + pivot_names(b@, i + 1) =~= before + pivot_names(b@, i as int));
        i += 1;
    }
    assert(texts(members@) + pivot_names(b@, i as int) =~= texts(members@));
}

fn push_own_names(kind: u32, b: &[u8], names: &mut Vec<String>, members: &mut Vec<String>)
    ensures
        texts(final(names)@) == texts(old(names)@) + own_names(kind, b@).names,
        texts(final(members)@) == texts(old(members)@) + own_names(kind, b@).members,
{
    let ghost n0 = texts(names@);
    let ghost m0 = texts(members@);
    if kind == 0x1f && b.len() >= 40 {
        push_name(members, read_name(b, 8, 24).as_str());
        push_name(names, read_name(b, 24, 40).as_str());
    } else if (kind == 0x101 || kind == 0x501 || kind == 0x601) && b.len() >= 20 {
        push_name(names, read_name(b, 4, 20).as_str());
    } else if kind == 0x102 {
        push_pivot_names(members, b);
    } else if kind == 0x701 && b.len() >= 40 {
        push_name(names, read_name(b, 8, 24).as_str());
        push_name(names, read_name(b, 24, 40).as_str());
    } else if kind == 0x704 && b.len() >= 36 {
        push_name(members, read_name(b, 4, 36).as_str());
    } else if kind == 0x740 && b.len() >= 40 {
        push_name(members, read_name(b, 8, 40).as_str());
    } else if kind == 0x750 && b.len() >= 48 {
        push_name(members, read_name(b, 16, 48).as_str());
    }
    assert(texts(names@) =~= n0 + own_names(kind, b@).names);
    assert(texts(members@) =~= m0 + own_names(kind, b@).members);
}

/// Collects the names that a chunk and the chunks in it hold.
pub fn collect_catalog_names(
    kind: u32,
    bytes: &[u8],
    names: &mut Vec<String>,
    members: &mut Vec<String>,
    depth: usize,
) -> (r: Result<(), W3dError>)
    requires
        depth <= MAX_CHUNK_DEPTH,
    ensures
        match (r, names_under(kind, bytes@, depth as int)) {
            (Ok(_), Ok(v)) => texts(final(names)@) == texts(old(names)@) + v.names && texts(
                final(members)@,
            ) == texts(old(members)@) + v.members,
            (Err(e), Err(m)) => e.message@ == m,
            _ => false,
        },
    decreases MAX_CHUNK_DEPTH - depth,
{
    let ghost n0 = texts(names@);
    let ghost m0 = texts(members@);
    push_own_names(kind, bytes, names, members);
    if depth >= MAX_CHUNK_DEPTH || !is_container(kind) {
        return Ok(());
    }
    let list = match chunks(bytes, depth + 1) {
        Ok(list) => list,
        Err(e) => {
            return Err(e);
        },
    };
    let ghost cs = chunk_views(list@);
    let ghost own = own_names(kind, bytes@);
    let ghost whole = names_under(kind, bytes@, depth as int);
    proof {
        if let Ok(v) = whole {
            assert(n0 + v.names =~= texts(names@) + names_among(cs, 0, depth + 1)->Ok_0.names);
            assert(m0 + v.members =~= texts(members@) + names_among(
                cs,
                0,
                depth + 1,
            )->Ok_0.members);
        }
    }
    let mut i: usize = 0;
    while i < list.len()
        invariant
            i <= list.len(),
            depth < MAX_CHUNK_DEPTH,
            cs == chunk_views(list@),
            whole == names_under(kind, bytes@, depth as int),
            n0 == texts(old(names)@),
            m0 == texts(old(members)@),
            match (whole, names_among(cs, i as int, depth + 1)) {
                (Ok(v), Ok(rest)) => n0 + v.names == texts(names@) + rest.names && m0 + v.members
                    == texts(members@) + rest.members,
                (Err(e), Err(m)) => e == m,
                _ => false,
            },
        decreases list.len() - i,
    {
        let ghost n1 = texts(names@);
        let ghost m1 = texts(members@);
        assert(cs[i as int] == (ChunkView {
            kind: list@[i as int].kind,
            data: list@[i as int].data@,
        }));
        match collect_catalog_names(list[i].kind, list[i].data, names, members, depth + 1) {
            Ok(_) => {
                proof {
                    if let Ok(rest) = names_among(cs, i + 1, depth + 1) {
                        let here = names_under(
                            cs[i as int].kind,
                            cs[i as int].data,
                            depth + 1,
                        )->Ok_0;
                        assert(texts(names@) + rest.names =~= n1 + (here.names + rest.names));
                        assert(texts(members@) + rest.members =~= m1 + (here.members
                            + rest.members));
                    }
                }
            },
            Err(e) => {
                return Err(e);
            },
        }
        i += 1;
    }
    assert(texts(names@) + Seq::<Seq<char>>::empty() =~= texts(names@));
    assert(texts(members@) + Seq::<Seq<char>>::empty() =~= texts(members@));
    Ok(())
}

/// Whether a chunk is an animation: raw, compressed or a morph.
pub open spec fn animates(kind: u32) -> bool {
    kind == 0x200 || kind == 0x280 || kind == 0x2c0
}

/// The animation that a header names, when it names both sides.
pub open spec fn animation_named(name: Seq<char>, hierarchy: Seq<char>) -> Seq<
    AnimationEntryView,
> {
    if name.len() > 0 && hierarchy.len() > 0 {
        seq![AnimationEntryView { name: hierarchy + "."@ + name, hierarchy }]
    } else {
        Seq::empty()
    }
}

/// The animations in the chunks from `i` on, of a container of `kind`.
pub open spec fn animations_fold(list: Seq<ChunkView>, i: int, kind: u32) -> Result<
    Seq<AnimationEntryView>,
    Seq<char>,
>
    decreases list.len() - i,
{
    if i < 0 || i >= list.len() {
        Ok(Seq::empty())
    } else if list[i].kind == kind + 1 {
        let b = list[i].data;
        if b.len() < 44 {
            Err("truncated animation header"@)
        } else {
            match animations_fold(list, i + 1, kind) {
                Ok(rest) => Ok(
                    animation_named(name_in(b, 4, 20), name_in(b, 20, 36)) + rest,
                ),
                Err(e) => Err(e),
            }
        }
    } else {
        animations_fold(list, i + 1, kind)
    }
}

pub open spec fn animations_of(kind: u32, b: Seq<u8>) -> Result<
    Seq<AnimationEntryView>,
    Seq<char>,
> {
    match chunks_of(b, 1) {
        Ok(list) => animations_fold(list, 0, kind),
        Err(e) => Err(e),
    }
}

fn parse_animations(kind: u32, bytes: &[u8], out: &mut Vec<AnimationCatalogEntry>) -> (r: Result<
    (),
    W3dError,
>)
    requires
        animates(kind),
    ensures
        match (r, animations_of(kind, bytes@)) {
            (Ok(_), Ok(v)) => views(final(out)@) == views(old(out)@) + v,
            (Err(e), Err(m)) => e.message@ == m,
            _ => false,
        },
{
    let list = match chunks(bytes, 1) {
        Ok(list) => list,
        Err(e) => {
            return Err(e);
        },
    };
    let ghost cs = chunk_views(list@);
    let ghost o0 = views(out@);
    let ghost whole = animations_of(kind, bytes@);
    let mut i: usize = 0;
    while i < list.len()
        invariant
            i <= list.len(),
            animates(kind),
            cs == chunk_views(list@),
            o0 == views(old(out)@),
            whole == animations_of(kind, bytes@),
            match (whole, animations_fold(cs, i as int, kind)) {
                (Ok(v), Ok(rest)) => o0 + v == views(out@) + rest,
                (Err(e), Err(m)) => e == m,
                _ => false,
            },
        decreases list.len() - i,
    {
        let ghost o1 = views(out@);
        let data = list[i].data;
        assert(cs[i as int] == (ChunkView { kind: list@[i as int].kind, data: data@ }));
        if list[i].kind == kind + 1 {
            if data.len() < 44 {
                return Err(W3dError::new("truncated animation header"));
            }
            let name = read_name(data, 4, 20);
            let hierarchy = read_name(data, 20, 36);
            let ghost here = animation_named(name@, hierarchy@);
            if !name.as_str().is_empty() && !hierarchy.as_str().is_empty() {
                let full = join3(hierarchy.as_str(), ".", name.as_str());
                out.push(AnimationCatalogEntry { name: full, hierarchy });
            }
            proof {
                assert(views(out@) =~= o1 + here);
                if let Ok(rest) = animations_fold(cs, i + 1, kind) {
                    assert(views(out@) + rest =~= o1 + (here + rest));
                }
            }
        }
        i += 1;
    }
    assert(views(out@) + Seq::<AnimationEntryView>::empty() =~= views(out@));
    Ok(())
}

/// A W3D file.
pub struct W3dFile {
    pub meshes: Vec<Mesh>,
    pub hierarchies: Vec<Hierarchy>,
    pub hlods: Vec<Hlod>,
    pub extra_names: Vec<String>,
    pub extra_members: Vec<String>,
    pub animations: Vec<AnimationCatalogEntry>,
}

/// The model of a [`W3dFile`].
pub struct FileView {
    pub meshes: Seq<MeshView>,
    pub hierarchies: Seq<HierarchyView>,
    pub hlods: Seq<HlodView>,
    pub extra_names: Seq<Seq<char>>,
    pub extra_members: Seq<Seq<char>>,
    pub animations: Seq<AnimationEntryView>,
}

impl View for W3dFile {
    type V = FileView;

    open spec fn view(&self) -> FileView {
        FileView {
            meshes: views(self.meshes@),
            hierarchies: views(self.hierarchies@),
            hlods: views(self.hlods@),
            extra_names: texts(self.extra_names@),
            extra_members: texts(self.extra_members@),
            animations: views(self.animations@),
        }
    }
}

pub open spec fn empty_file() -> FileView {
    FileView {
        meshes: Seq::empty(),
        hierarchies: Seq::empty(),
        hlods: Seq::empty(),
        extra_names: Seq::empty(),
        extra_members: Seq::empty(),
        animations: Seq::empty(),
    }
}

/// What a top-level chunk adds of its own kind.
pub open spec fn content_step(c: ChunkView, f: FileView) -> Result<FileView, Seq<char>> {
    if c.kind == 0 {
        match mesh_of(c.data) {
            Ok(v) => Ok(FileView { meshes: f.meshes.push(v), ..f }),
            Err(e) => Err(e),
        }
    } else if c.kind == 0x100 {
        match hierarchy_of(c.data) {
            Ok(v) => Ok(FileView { hierarchies: f.hierarchies.push(v), ..f }),
            Err(e) => Err(e),
        }
    } else if c.kind == 0x700 {
        match hlod_of(c.data) {
            Ok(v) => Ok(FileView { hlods: f.hlods.push(v), ..f }),
            Err(e) => Err(e),
        }
    } else if animates(c.kind) {
        match animations_of(c.kind, c.data) {
            Ok(v) => Ok(FileView { animations: f.animations + v, ..f }),
            Err(e) => Err(e),
        }
    } else {
        Ok(f)
    }
}

/// A file after one more top-level chunk.
pub open spec fn file_step(c: ChunkView, f: FileView) -> Result<FileView, Seq<char>> {
    match content_step(c, f) {
        Ok(g) => match names_under(c.kind, c.data, 0) {
            Ok(n) => Ok(
                FileView {
                    extra_names: g.extra_names + n.names,
                    extra_members: g.extra_members + n.members,
                    ..g
                },
            ),
            Err(e) => Err(e),
        },
        Err(e) => Err(e),
    }
}

/// A file after the top-level chunks from `i` on.
pub open spec fn file_fold(list: Seq<ChunkView>, i: int, f: FileView) -> Result<FileView, Seq<char>>
    decreases list.len() - i,
{
    if i < 0 || i >= list.len() {
        Ok(f)
    } else {
        match file_step(list[i], f) {
            Ok(g) => file_fold(list, i + 1, g),
            Err(e) => Err(e),
        }
    }
}

pub open spec fn vertex_total(meshes: Seq<MeshView>, i: int) -> nat
    decreases meshes.len() - i,
{
    if i < 0 || i >= meshes.len() {
        0
    } else {
        meshes[i].vertices.len() + vertex_total(meshes, i + 1)
    }
}

pub open spec fn triangle_total(meshes: Seq<MeshView>, i: int) -> nat
    decreases meshes.len() - i,
{
    if i < 0 || i >= meshes.len() {
        0
    } else {
        meshes[i].triangles.len() + triangle_total(meshes, i + 1)
    }
}

pub open spec fn over_budget(meshes: Seq<MeshView>) -> bool {
    vertex_total(meshes, 0) > MAX_VERTICES || triangle_total(meshes, 0) > MAX_TRIANGLES
}

/// What a file's bytes hold.
pub open spec fn file_of(b: Seq<u8>) -> Result<FileView, Seq<char>> {
    if b.len() > MAX_FILE_BYTES {
        Err("W3D file exceeds 128 MiB"@)
    } else {
        match chunks_of(b, 0) {
            Ok(list) => match file_fold(list, 0, empty_file()) {
                Ok(f) => if over_budget(f.meshes) {
                    Err("W3D geometry budget exceeded"@)
                } else {
                    Ok(f)
                },
                Err(e) => Err(e),
            },
            Err(e) => Err(e),
        }
    }
}

fn exceeds_budget(meshes: &Vec<Mesh>) -> (r: bool)
    ensures
        r == over_budget(views(meshes@)),
{
    let ghost ms = views(meshes@);
    let mut vertices: usize = 0;
    let mut triangles: usize = 0;
    let mut i: usize = 0;
    while i < meshes.len()
        invariant
            i <= meshes.len(),
            ms == views(meshes@),
            vertices <= MAX_VERTICES,
            triangles <= MAX_TRIANGLES,
            vertices + vertex_total(ms, i as int) == vertex_total(ms, 0),
            triangles + triangle_total(ms, i as int) == triangle_total(ms, 0),
        decreases meshes.len() - i,
    {
        assert(ms[i as int] == meshes@[i as int]@);
        let v: usize = meshes[i].vertices.len();
        let t: usize = meshes[i].triangles.len();
        if v > MAX_VERTICES - vertices || t > MAX_TRIANGLES - triangles {
            return true;
        }
        vertices += v;
        triangles += t;
        i += 1;
    }
    false
}

fn add_content(kind: u32, data: &[u8], file: W3dFile) -> (r: Result<W3dFile, W3dError>)
    ensures
        gives(r, content_step(ChunkView { kind, data: data@ }, file@)),
{
    let mut f = file;
    if kind == 0 {
        match parse_mesh(data) {
            Ok(v) => {
                let ghost o0 = views(f.meshes@);
                let ghost vv = v@;
                f.meshes.push(v);
                assert(views(f.meshes@) =~= o0.push(vv));
            },
            Err(e) => {
                return Err(e);
            },
        }
    } else if kind == 0x100 {
        match parse_hierarchy(data) {
            Ok(v) => {
                let ghost o0 = views(f.hierarchies@);
                let ghost vv = v@;
                f.hierarchies.push(v);
                assert(views(f.hierarchies@) =~= o0.push(vv));
            },
            Err(e) => {
                return Err(e);
            },
        }
    } else if kind == 0x700 {
        match parse_hlod(data) {
            Ok(v) => {
                let ghost o0 = views(f.hlods@);
                let ghost vv = v@;
                f.hlods.push(v);
                assert(views(f.hlods@) =~= o0.push(vv));
            },
            Err(e) => {
                return Err(e);
            },
        }
    } else if kind == 0x200 || kind == 0x280 || kind == 0x2c0 {
        match parse_animations(kind, data, &mut f.animations) {
            Ok(_) => {},
            Err(e) => {
                return Err(e);
            },
        }
    }
    Ok(f)
}

fn add_chunk(kind: u32, data: &[u8], file: W3dFile) -> (r: Result<W3dFile, W3dError>)
    ensures
        gives(r, file_step(ChunkView { kind, data: data@ }, file@)),
{
    let mut f = match add_content(kind, data, file) {
        Ok(f) => f,
        Err(e) => {
            return Err(e);
        },
    };
    match collect_catalog_names(kind, data, &mut f.extra_names, &mut f.extra_members, 0) {
        Ok(_) => Ok(f),
        Err(e) => Err(e),
    }
}

/// The names of the meshes from `i` on.
pub open spec fn mesh_names(meshes: Seq<MeshView>, i: int) -> Seq<Seq<char>>
    decreases meshes.len() - i,
{
    if i < 0 || i >= meshes.len() {
        Seq::empty()
    } else {
        pushed(meshes[i].name) + mesh_names(meshes, i + 1)
    }
}

/// The names of the skeletons from `i` on.
pub open spec fn hierarchy_names(list: Seq<HierarchyView>, i: int) -> Seq<Seq<char>>
    decreases list.len() - i,
{
    if i < 0 || i >= list.len() {
        Seq::empty()
    } else {
        pushed(list[i].name) + hierarchy_names(list, i + 1)
    }
}

/// The names of the pivots from `i` on.
pub open spec fn bone_names(list: Seq<PivotView>, i: int) -> Seq<Seq<char>>
    decreases list.len() - i,
{
    if i < 0 || i >= list.len() {
        Seq::empty()
    } else {
        pushed(list[i].name) + bone_names(list, i + 1)
    }
}

/// The names of all pivots of the skeletons from `i` on.
pub open spec fn skeleton_members(list: Seq<HierarchyView>, i: int) -> Seq<Seq<char>>
    decreases list.len() - i,
{
    if i < 0 || i >= list.len() {
        Seq::empty()
    } else {
        bone_names(list[i].pivots, 0) + skeleton_members(list, i + 1)
    }
}

/// The names of the models from `i` on.
pub open spec fn hlod_names(list: Seq<HlodView>, i: int) -> Seq<Seq<char>>
    decreases list.len() - i,
{
    if i < 0 || i >= list.len() {
        Seq::empty()
    } else {
        pushed(list[i].name) + hlod_names(list, i + 1)
    }
}

/// The names of the parts from `i` on.
pub open spec fn part_names(list: Seq<SubObjectView>, i: int) -> Seq<Seq<char>>
    decreases list.len() - i,
{
    if i < 0 || i >= list.len() {
        Seq::empty()
    } else {
        pushed(list[i].name) + part_names(list, i + 1)
    }
}

/// The names of the parts of the levels from `i` on.
pub open spec fn lod_members(list: Seq<LodView>, i: int) -> Seq<Seq<char>>
    decreases list.len() - i,
{
    if i < 0 || i >= list.len() {
        Seq::empty()
    } else {
        part_names(list[i].subobjects, 0) + lod_members(list, i + 1)
    }
}

/// The names of all parts of the models from `i` on.
pub open spec fn hlod_members(list: Seq<HlodView>, i: int) -> Seq<Seq<char>>
    decreases list.len() - i,
{
    if i < 0 || i >= list.len() {
        Seq::empty()
    } else {
        lod_members(list[i].lods, 0) + part_names(list[i].aggregates, 0) + hlod_members(
            list,
            i + 1,
        )
    }
}

/// The skeleton of the first model with this name, from `i` on.
pub open spec fn hlod_skeleton(list: Seq<HlodView>, i: int, name: Seq<char>) -> Option<Seq<char>>
    decreases list.len() - i,
{
    if i < 0 || i >= list.len() {
        None
    } else if same_ci(list[i].name, name) {
        Some(list[i].hierarchy)
    } else {
        hlod_skeleton(list, i + 1, name)
    }
}

/// The first skeleton with this name, from `i` on.
pub open spec fn skeleton_named(list: Seq<HierarchyView>, i: int, name: Seq<char>) -> Option<
    Seq<char>,
>
    decreases list.len() - i,
{
    if i < 0 || i >= list.len() {
        None
    } else if same_ci(list[i].name, name) {
        Some(list[i].name)
    } else {
        skeleton_named(list, i + 1, name)
    }
}

impl FileView {
    /// Whether a file holds animations and nothing else.
    pub open spec fn only_animates(self) -> bool {
        self.animations.len() > 0 && self.meshes.len() == 0 && self.hierarchies.len() == 0
            && self.hlods.len() == 0 && self.extra_names.len() == 0
    }

    /// All names under which a file offers a model.
    pub open spec fn all_names(self, fallback: Seq<char>) -> Seq<Seq<char>> {
        pushed(fallback) + self.extra_names + mesh_names(self.meshes, 0) + hierarchy_names(
            self.hierarchies,
            0,
        ) + hlod_names(self.hlods, 0)
    }

    /// All members that a file holds.
    pub open spec fn all_members(self) -> Seq<Seq<char>> {
        self.extra_members + mesh_names(self.meshes, 0) + skeleton_members(self.hierarchies, 0)
            + hlod_members(self.hlods, 0)
    }

    /// The skeleton of the model with this name: that of the level-of-detail
    /// model so named; for the fallback name, that of the only one; else the
    /// skeleton so named.
    pub open spec fn skeleton_of(self, name: Seq<char>, fallback: Seq<char>) -> Option<Seq<char>> {
        let found = match hlod_skeleton(self.hlods, 0, name) {
            Some(h) => Some(h),
            None => if same_ci(name, fallback) && self.hlods.len() == 1 {
                Some(self.hlods[0].hierarchy)
            } else {
                skeleton_named(self.hierarchies, 0, name)
            },
        };
        match found {
            Some(h) => if h.len() > 0 {
                Some(h)
            } else {
                None
            },
            None => None,
        }
    }

    /// The catalog entries of the names from `i` on.
    pub open spec fn entries(
        self,
        names: Seq<Seq<char>>,
        members: Seq<Seq<char>>,
        fallback: Seq<char>,
        i: int,
    ) -> Seq<CatalogView>
        decreases names.len() - i,
    {
        if i < 0 || i >= names.len() {
            Seq::empty()
        } else if names[i].len() == 0 {
            self.entries(names, members, fallback, i + 1)
        } else {
            seq![
                CatalogView {
                    name: names[i],
                    members,
                    hierarchy: self.skeleton_of(names[i], fallback),
                },
            ] + self.entries(names, members, fallback, i + 1)
        }
    }

    /// The models that a file offers.
    pub open spec fn models(self, fallback: Seq<char>) -> Seq<CatalogView> {
        if self.only_animates() {
            Seq::empty()
        } else {
            self.entries(
                dedup_ci(self.all_names(fallback)),
                dedup_ci(self.all_members()),
                fallback,
                0,
            )
        }
    }
}

fn push_parts(members: &mut Vec<String>, list: &Vec<SubObject>)
    ensures
        texts(final(members)@) == texts(old(members)@) + part_names(views(list@), 0),
{
    let ghost vs = views(list@);
    let ghost whole = texts(members@) + part_names(vs, 0);
    let mut i: usize = 0;
    while i < list.len()
        invariant
            i <= list.len(),
            vs == views(list@),
            texts(members@) + part_names(vs, i as int) == whole,
        decreases list.len() - i,
    {
        let ghost before = texts(members@);
        assert(vs[i as int] == list@[i as int]@);
        push_name(members, list[i].name.as_str());
        assert(texts(members@) + part_names(vs, i + 1) =~= before + part_names(vs, i as int));
        i += 1;
    }
    assert(texts(members@) + part_names(vs, i as int) =~= texts(members@));
}

fn push_lods(members: &mut Vec<String>, list: &Vec<Lod>)
    ensures
        texts(final(members)@) == texts(old(members)@) + lod_members(views(list@), 0),
{
    let ghost vs = views(list@);
    let ghost whole = texts(members@) + lod_members(vs, 0);
    let mut i: usize = 0;
    while i < list.len()
        invariant
            i <= list.len(),
            vs == views(list@),
            texts(members@) + lod_members(vs, i as int) == whole,
        decreases list.len() - i,
    {
        let ghost before = texts(members@);
        assert(vs[i as int] == list@[i as int]@);
        push_parts(members, &list[i].subobjects);
        assert(texts(members@) + lod_members(vs, i + 1) =~= before + lod_members(vs, i as int));
        i += 1;
    }
    assert(texts(members@) + lod_members(vs, i as int) =~= texts(members@));
}

fn push_bones(members: &mut Vec<String>, list: &Vec<Pivot>)
    ensures
        texts(final(members)@) == texts(old(members)@) + bone_names(views(list@), 0),
{
    let ghost vs = views(list@);
    let ghost whole = texts(members@) + bone_names(vs, 0);
    let mut i: usize = 0;
    while i < list.len()
        invariant
            i <= list.len(),
            vs == views(list@),
            texts(members@) + bone_names(vs, i as int) == whole,
        decreases list.len() - i,
    {
        let ghost before = texts(members@);
        assert(vs[i as int] == list@[i as int]@);
        push_name(members, list[i].name.as_str());
        assert(texts(members@) + bone_names(vs, i + 1) =~= before + bone_names(vs, i as int));
        i += 1;
    }
    assert(texts(members@) + bone_names(vs, i as int) =~= texts(members@));
}

impl W3dFile {
    fn empty() -> (r: W3dFile)
        ensures
            r@ == empty_file(),
    {
        let r = W3dFile {
            meshes: Vec::new(),
            hierarchies: Vec::new(),
            hlods: Vec::new(),
            extra_names: Vec::new(),
            extra_members: Vec::new(),
            animations: Vec::new(),
        };
        assert(r@.meshes =~= empty_file().meshes);
        assert(r@.hierarchies =~= empty_file().hierarchies);
        assert(r@.hlods =~= empty_file().hlods);
        assert(r@.extra_names =~= empty_file().extra_names);
        assert(r@.extra_members =~= empty_file().extra_members);
        assert(r@.animations =~= empty_file().animations);
        r
    }

    /// Reads a file.
    pub fn parse(bytes: &[u8]) -> (r: Result<W3dFile, W3dError>)
        ensures
            gives(r, file_of(bytes@)),
    {
        if bytes.len() > MAX_FILE_BYTES {
            return Err(W3dError::new("W3D file exceeds 128 MiB"));
        }
        let list = match chunks(bytes, 0) {
            Ok(list) => list,
            Err(e) => {
                return Err(e);
            },
        };
        let ghost cs = chunk_views(list@);
        let ghost whole = file_fold(cs, 0, empty_file());
        let mut f = W3dFile::empty();
        let mut i: usize = 0;
        while i < list.len()
            invariant
                i <= list.len(),
                cs == chunk_views(list@),
                bytes@.len() <= MAX_FILE_BYTES,
                chunks_of(bytes@, 0) == Ok::<Seq<ChunkView>, Seq<char>>(cs),
                whole == file_fold(cs, 0, empty_file()),
                whole == file_fold(cs, i as int, f@),
            decreases list.len() - i,
        {
            assert(cs[i as int] == (ChunkView {
                kind: list@[i as int].kind,
                data: list@[i as int].data@,
            }));
            match add_chunk(list[i].kind, list[i].data, f) {
                Ok(g) => {
                    f = g;
                },
                Err(e) => {
                    return Err(e);
                },
            }
            i += 1;
        }
        if exceeds_budget(&f.meshes) {
            return Err(W3dError::new("W3D geometry budget exceeded"));
        }
        Ok(f)
    }

    fn push_mesh_names(&self, out: &mut Vec<String>)
        ensures
            texts(final(out)@) == texts(old(out)@) + mesh_names(self@.meshes, 0),
    {
        let ghost vs = self@.meshes;
        let ghost whole = texts(out@) + mesh_names(vs, 0);
        let mut i: usize = 0;
        while i < self.meshes.len()
            invariant
                i <= self.meshes.len(),
                vs == views(self.meshes@),
                texts(out@) + mesh_names(vs, i as int) == whole,
            decreases self.meshes.len() - i,
        {
            let ghost before = texts(out@);
            assert(vs[i as int] == self.meshes@[i as int]@);
            push_name(out, self.meshes[i].name.as_str());
            assert(texts(out@) + mesh_names(vs, i + 1) =~= before + mesh_names(vs, i as int));
            i += 1;
        }
        assert(texts(out@) + mesh_names(vs, i as int) =~= texts(out@));
    }

    fn push_hierarchy_names(&self, names: &mut Vec<String>, members: &mut Vec<String>)
        ensures
            texts(final(names)@) == texts(old(names)@) + hierarchy_names(self@.hierarchies, 0),
            texts(final(members)@) == texts(old(members)@) + skeleton_members(
                self@.hierarchies,
                0,
            ),
    {
        let ghost vs = self@.hierarchies;
        let ghost n0 = texts(names@) + hierarchy_names(vs, 0);
        let ghost m0 = texts(members@) + skeleton_members(vs, 0);
        let mut i: usize = 0;
        while i < self.hierarchies.len()
            invariant
                i <= self.hierarchies.len(),
                vs == views(self.hierarchies@),
                texts(names@) + hierarchy_names(vs, i as int) == n0,
                texts(members@) + skeleton_members(vs, i as int) == m0,
            decreases self.hierarchies.len() - i,
        {
            let ghost n1 = texts(names@);
            let ghost m1 = texts(members@);
            assert(vs[i as int] == self.hierarchies@[i as int]@);
            push_name(names, self.hierarchies[i].name.as_str());
            push_bones(members, &self.hierarchies[i].pivots);
            assert(texts(names@) + hierarchy_names(vs, i + 1) =~= n1 + hierarchy_names(
                vs,
                i as int,
            ));
            assert(texts(members@) + skeleton_members(vs, i + 1) =~= m1 + skeleton_members(
                vs,
                i as int,
            ));
            i += 1;
        }
        assert(texts(names@) + hierarchy_names(vs, i as int) =~= texts(names@));
        assert(texts(members@) + skeleton_members(vs, i as int) =~= texts(members@));
    }

    fn push_hlod_names(&self, names: &mut Vec<String>, members: &mut Vec<String>)
        ensures
            texts(final(names)@) == texts(old(names)@) + hlod_names(self@.hlods, 0),
            texts(final(members)@) == texts(old(members)@) + hlod_members(self@.hlods, 0),
    {
        let ghost vs = self@.hlods;
        let ghost n0 = texts(names@) + hlod_names(vs, 0);
        let ghost m0 = texts(members@) + hlod_members(vs, 0);
        let mut i: usize = 0;
        while i < self.hlods.len()
            invariant
                i <= self.hlods.len(),
                vs == views(self.hlods@),
                texts(names@) + hlod_names(vs, i as int) == n0,
                texts(members@) + hlod_members(vs, i as int) == m0,
            decreases self.hlods.len() - i,
        {
            let ghost n1 = texts(names@);
            let ghost m1 = texts(members@);
            assert(vs[i as int] == self.hlods@[i as int]@);
            push_name(names, self.hlods[i].name.as_str());
            push_lods(members, &self.hlods[i].lods);
            push_parts(members, &self.hlods[i].aggregates);
            assert(texts(names@) + hlod_names(vs, i + 1) =~= n1 + hlod_names(vs, i as int));
            assert(texts(members@) + hlod_members(vs, i + 1) =~= m1 + hlod_members(vs, i as int));
            i += 1;
        }
        assert(texts(names@) + hlod_names(vs, i as int) =~= texts(names@));
        assert(texts(members@) + hlod_members(vs, i as int) =~= texts(members@));
    }

    fn find_hlod_skeleton(&self, name: &str) -> (r: Option<&str>)
        ensures
            crate::index::opt_str(r) == hlod_skeleton(self@.hlods, 0, name@),
    {
        let ghost vs = self@.hlods;
        let mut i: usize = 0;
        while i < self.hlods.len()
            invariant
                i <= self.hlods.len(),
                vs == views(self.hlods@),
                hlod_skeleton(vs, 0, name@) == hlod_skeleton(vs, i as int, name@),
                vs == self@.hlods,
            decreases self.hlods.len() - i,
        {
            assert(vs[i as int] == self.hlods@[i as int]@);
            if eq_ci(self.hlods[i].name.as_str(), name) {
                return Some(self.hlods[i].hierarchy.as_str());
            }
            i += 1;
        }
        None
    }

    fn find_skeleton(&self, name: &str) -> (r: Option<&str>)
        ensures
            crate::index::opt_str(r) == skeleton_named(self@.hierarchies, 0, name@),
    {
        let ghost vs = self@.hierarchies;
        let mut i: usize = 0;
        while i < self.hierarchies.len()
            invariant
                i <= self.hierarchies.len(),
                vs == views(self.hierarchies@),
                skeleton_named(vs, 0, name@) == skeleton_named(vs, i as int, name@),
                vs == self@.hierarchies,
            decreases self.hierarchies.len() - i,
        {
            assert(vs[i as int] == self.hierarchies@[i as int]@);
            if eq_ci(self.hierarchies[i].name.as_str(), name) {
                return Some(self.hierarchies[i].name.as_str());
            }
            i += 1;
        }
        None
    }

    fn skeleton(&self, name: &str, fallback: &str) -> (r: Option<String>)
        ensures
            opt_text(r) == self@.skeleton_of(name@, fallback@),
    {
        let found = match self.find_hlod_skeleton(name) {
            Some(h) => Some(h),
            None => {
                if eq_ci(name, fallback) && self.hlods.len() == 1 {
                    assert(self@.hlods[0] == self.hlods@[0]@);
                    Some(self.hlods[0].hierarchy.as_str())
                } else {
                    self.find_skeleton(name)
                }
            },
        };
        match found {
            Some(h) => if h.is_empty() {
                None
            } else {
                Some(h.to_owned())
            },
            None => None,
        }
    }

    /// The models that the file offers, under `fallback_name` and every name
    /// in it. A file with nothing but animations offers none.
    pub fn catalog(&self, fallback_name: &str) -> (r: Vec<ModelCatalogEntry>)
        ensures
            views(r@) == self@.models(fallback_name@),
    {
        let mut out: Vec<ModelCatalogEntry> = Vec::new();
        assert(views(out@) =~= Seq::<CatalogView>::empty());
        if self.animations.len() > 0 && self.meshes.len() == 0 && self.hierarchies.len() == 0
            && self.hlods.len() == 0 && self.extra_names.len() == 0 {
            return out;
        }
        let mut names: Vec<String> = Vec::new();
        let mut members = copy_texts(&self.extra_members);
        push_name(&mut names, fallback_name);
        push_copies(&mut names, &self.extra_names);
        self.push_mesh_names(&mut names);
        self.push_mesh_names(&mut members);
        self.push_hierarchy_names(&mut names, &mut members);
        self.push_hlod_names(&mut names, &mut members);
        assert(texts(names@) =~= self@.all_names(fallback_name@));
        assert(texts(members@) =~= self@.all_members());
        let names = dedup_case_insensitive(names);
        let members = dedup_case_insensitive(members);
        let ghost ns = texts(names@);
        let ghost ms = texts(members@);
        let ghost whole = self@.entries(ns, ms, fallback_name@, 0);
        assert(views(out@) + whole =~= whole);
        let mut i: usize = 0;
        while i < names.len()
            invariant
                i <= names.len(),
                ns == texts(names@),
                ms == texts(members@),
                views(out@) + self@.entries(ns, ms, fallback_name@, i as int) == whole,
            decreases names.len() - i,
        {
            let ghost before = views(out@);
            assert(ns[i as int] == names@[i as int]@);
            if !names[i].as_str().is_empty() {
                let hierarchy = self.skeleton(names[i].as_str(), fallback_name);
                out.push(
                    ModelCatalogEntry {
                        name: names[i].clone(),
                        members: copy_texts(&members),
                        hierarchy,
                    },
                );
            }
            assert(views(out@) + self@.entries(ns, ms, fallback_name@, i + 1) =~= before
                + self@.entries(ns, ms, fallback_name@, i as int));
            i += 1;
        }
        assert(views(out@) + self@.entries(ns, ms, fallback_name@, i as int) =~= views(out@));
        out
    }

    /// The animations that the file holds.
    pub fn animations(&self) -> (r: &[AnimationCatalogEntry])
        ensures
            r@ == self.animations@,
    {
        self.animations.as_slice()
    }
}

/// A file that holds only animations offers no model, under any name.
pub proof fn law_animation_files_offer_no_model(file: FileView, fallback: Seq<char>)
    requires
        file.only_animates(),
    ensures
        file.models(fallback).len() == 0,
{
}

proof fn lemma_entries_are_named(
    file: FileView,
    names: Seq<Seq<char>>,
    members: Seq<Seq<char>>,
    fallback: Seq<char>,
    i: int,
)
    requires
        0 <= i,
    ensures
        forall|k: int|
            0 <= k < file.entries(names, members, fallback, i).len() ==> {
                let entry = #[trigger] file.entries(names, members, fallback, i)[k];
                &&& entry.name.len() > 0
                &&& names.contains(entry.name)
                &&& entry.members == members
                &&& entry.hierarchy == file.skeleton_of(entry.name, fallback)
            },
    decreases names.len() - i,
{
    if i < names.len() {
        lemma_entries_are_named(file, names, members, fallback, i + 1);
        let rest = file.entries(names, members, fallback, i + 1);
        let all = file.entries(names, members, fallback, i);
        assert forall|k: int| 0 <= k < all.len() implies {
            let entry = #[trigger] all[k];
            &&& entry.name.len() > 0
            &&& names.contains(entry.name)
            &&& entry.members == members
            &&& entry.hierarchy == file.skeleton_of(entry.name, fallback)
        } by {
            if names[i].len() == 0 {
                assert(all[k] == rest[k]);
            } else if k > 0 {
                assert(all[k] == rest[k - 1]);
            } else {
                assert(names.contains(names[i]));
            }
        }
    }
}

/// Each model that a file offers has a name out of the file's names, the
/// members of the whole file, and the skeleton that goes with its own name.
pub proof fn law_models_keep_their_own_skeleton(file: FileView, fallback: Seq<char>, k: int)
    requires
        0 <= k < file.models(fallback).len(),
    ensures
        ({
            let entry = file.models(fallback)[k];
            &&& entry.name.len() > 0
            &&& dedup_ci(file.all_names(fallback)).contains(entry.name)
            &&& entry.members == dedup_ci(file.all_members())
            &&& entry.hierarchy == file.skeleton_of(entry.name, fallback)
        }),
{
    lemma_entries_are_named(
        file,
        dedup_ci(file.all_names(fallback)),
        dedup_ci(file.all_members()),
        fallback,
        0,
    );
}

/// The bytes of a word, the lowest first.
pub open spec fn word_bytes(x: u32) -> Seq<u8> {
    seq![
        (x % 256) as u8,
        (x / 256 % 256) as u8,
        (x / 65536 % 256) as u8,
        (x / 16777216) as u8,
    ]
}

/// The bytes of a chunk.
pub open spec fn chunk_bytes(kind: u32, data: Seq<u8>) -> Seq<u8> {
    word_bytes(kind) + word_bytes(data.len() as u32) + data
}

/// Whether a chunk of this kind says nothing to the reader, at the top of a
/// file.
pub open spec fn ignored(kind: u32) -> bool {
    &&& !contains_chunks(kind)
    &&& !animates(kind)
    &&& kind != 0x1f && kind != 0x101 && kind != 0x102 && kind != 0x501 && kind != 0x601 && kind
        != 0x701 && kind != 0x704 && kind != 0x740 && kind != 0x750
}

proof fn lemma_word_bytes(x: u32, front: Seq<u8>, back: Seq<u8>)
    ensures
        le32(front + word_bytes(x) + back, front.len() as int) == x,
{
    let b = front + word_bytes(x) + back;
    let at = front.len() as int;
    let w = word_bytes(x);
    assert(b[at] == w[0] && b[at + 1] == w[1] && b[at + 2] == w[2] && b[at + 3] == w[3]);
    assert(w[0] + 256 * w[1] + 65536 * w[2] + 16777216 * w[3] == x);
}

proof fn lemma_chunks_shift(c: Seq<u8>, a: Seq<u8>, position: int, count: int)
    requires
        0 <= position,
        0 <= count,
        chunks_from(a, position, count) matches Ok(list) && count + list.len()
            < MAX_CHUNKS_PER_CONTAINER,
    ensures
        chunks_from(c + a, c.len() + position, count + 1) == chunks_from(a, position, count),
    decreases a.len() - position,
{
    let b = c + a;
    let at = c.len() + position;
    if a.len() - position < 8 {
        assert(!any_nonzero(a, position));
        if any_nonzero(b, at) {
            let i = choose|i: int| at <= i < b.len() && #[trigger] b[i] != 0;
            assert(a[i - c.len()] != 0);
        }
    } else {
        assert(forall|i: int| position <= i < a.len() ==> #[trigger] a[i] == b[c.len() + i]);
        assert(le32(b, at) == le32(a, position));
        assert(le32(b, at + 4) == le32(a, position + 4));
        let end = position + 8 + chunk_size(le32(a, position + 4));
        assert(end <= a.len());
        let rest = chunks_from(a, end, count + 1);
        assert(rest is Ok);
        assert(b.subrange(at + 8, c.len() + end) =~= a.subrange(position + 8, end));
        lemma_chunks_shift(c, a, end, count + 1);
    }
}

proof fn lemma_file_fold_shift(first: ChunkView, list: Seq<ChunkView>, i: int, f: FileView)
    requires
        0 <= i,
    ensures
        file_fold(seq![first] + list, i + 1, f) == file_fold(list, i, f),
    decreases list.len() - i,
{
    let all = seq![first] + list;
    if i < list.len() {
        assert(all[i + 1] == list[i]);
        match file_step(list[i], f) {
            Ok(g) => lemma_file_fold_shift(first, list, i + 1, g),
            Err(_) => {},
        }
    }
}

proof fn lemma_first_chunk(kind: u32, data: Seq<u8>, file: Seq<u8>)
    requires
        chunk_bytes(kind, data).len() + file.len() <= MAX_FILE_BYTES,
        chunks_from(file, 0, 0) matches Ok(list) && list.len() < MAX_CHUNKS_PER_CONTAINER,
    ensures
        chunks_from(chunk_bytes(kind, data) + file, 0, 0) matches Ok(all) && all.len() > 0
            && all[0].kind == kind && all == seq![all[0]] + chunks_from(file, 0, 0)->Ok_0,
{
    let c = chunk_bytes(kind, data);
    let b = c + file;
    let n = data.len() as u32;
    assert(c.len() == 8 + data.len());
    assert(le32(b, 0) == kind) by {
        lemma_word_bytes(kind, Seq::empty(), word_bytes(n) + data + file);
        assert(b =~= Seq::<u8>::empty() + word_bytes(kind) + (word_bytes(n) + data + file));
    }
    assert(le32(b, 4) == n) by {
        lemma_word_bytes(n, word_bytes(kind), data + file);
        assert(b =~= word_bytes(kind) + word_bytes(n) + (data + file));
    }
    lemma_chunks_shift(c, file, 0, 0);
    let all = seq![ChunkView { kind, data: b.subrange(8, c.len() as int) }] + chunks_from(
        file,
        0,
        0,
    )->Ok_0;
    assert(chunks_from(b, 0, 0) == Ok::<Seq<ChunkView>, Seq<char>>(all));
    assert(all[0] == ChunkView { kind, data: b.subrange(8, c.len() as int) });
}

proof fn lemma_ignored_step(c: ChunkView)
    requires
        ignored(c.kind),
    ensures
        file_step(c, empty_file()) == Ok::<FileView, Seq<char>>(empty_file()),
{
    let e = empty_file();
    assert(names_under(c.kind, c.data, 0) == Ok::<NamesView, Seq<char>>(no_names()));
    assert(e.extra_names + no_names().names =~= e.extra_names);
    assert(e.extra_members + no_names().members =~= e.extra_members);
    assert(content_step(c, e) == Ok::<FileView, Seq<char>>(e));
}

/// A chunk of a kind that the reader does not know, in front of a file, changes
/// nothing that is read: neither models nor animations, nor the error of a file
/// whose chunks can be told apart.
pub proof fn law_unknown_chunks_change_nothing(kind: u32, data: Seq<u8>, file: Seq<u8>)
    requires
        ignored(kind),
        chunk_bytes(kind, data).len() + file.len() <= MAX_FILE_BYTES,
        chunks_of(file, 0) matches Ok(list) && list.len() < MAX_CHUNKS_PER_CONTAINER,
    ensures
        file_of(chunk_bytes(kind, data) + file) == file_of(file),
{
    lemma_first_chunk(kind, data, file);
    let b = chunk_bytes(kind, data) + file;
    let all = chunks_of(b, 0)->Ok_0;
    let list = chunks_of(file, 0)->Ok_0;
    lemma_ignored_step(all[0]);
    lemma_file_fold_shift(all[0], list, 0, empty_file());
    assert(file_fold(all, 0, empty_file()) == file_fold(list, 0, empty_file()));
}

} // verus!
