//! What is read from archives, paths and string tables.

use vstd::prelude::*;

use crate::archive::{be32, directory, entries_from, entry_at, BigEntryView, BigError};
use crate::index::AssetKind;
use crate::laws::text::{around, lacks, law_last_parts, law_texts_part_at_the_last};
use crate::scan::{asset_of, input_kind_of, keys_from, path_extension, InputKind};
use crate::text::{in_class, same_ci, trim, CharClass};
use crate::uri::{
    bang_at, entry_path, escape_at, hex_value, percent_decoded, replaced, split_archive,
};
use crate::w3d::{lossy_text, zero_at};

verus! {

/// The bytes of a word, the highest first.
pub open spec fn big_word(x: u32) -> Seq<u8> {
    seq![
        (x / 16777216) as u8,
        (x / 65536 % 256) as u8,
        (x / 256 % 256) as u8,
        (x % 256) as u8,
    ]
}

proof fn lemma_big_word(front: Seq<u8>, x: u32, back: Seq<u8>)
    ensures
        be32(front + big_word(x) + back, front.len() as int) == x,
{
    let b = front + big_word(x) + back;
    let at = front.len() as int;
    let w = big_word(x);
    assert(b[at] == w[0] && b[at + 1] == w[1] && b[at + 2] == w[2] && b[at + 3] == w[3]);
    assert(16777216 * w[0] + 65536 * w[1] + 256 * w[2] + w[3] == x);
}

/// An entry of an archive's directory as it is written: where its bytes begin, how many
/// there are, and its name.
pub struct DirectoryEntry {
    pub offset: u32,
    pub size: u32,
    pub name: Seq<u8>,
}

/// The bytes of entries one behind the other, each name closed by a zero.
pub open spec fn entries_bytes(list: Seq<DirectoryEntry>) -> Seq<u8>
    decreases list.len(),
{
    if list.len() == 0 {
        Seq::empty()
    } else {
        big_word(list[0].offset) + big_word(list[0].size) + list[0].name + seq![0u8]
            + entries_bytes(list.drop_first())
    }
}

/// Names without a zero in them.
pub open spec fn names_fit(list: Seq<DirectoryEntry>) -> bool {
    forall|i: int, k: int|
        #![trigger list[i].name[k]]
        0 <= i < list.len() && 0 <= k < list[i].name.len() ==> list[i].name[k] != 0
}

/// What a written entry says: backslashes in its name are slashes.
pub open spec fn entry_said(e: DirectoryEntry) -> BigEntryView {
    BigEntryView {
        name: replaced(lossy_text(e.name), '\\', '/'),
        offset: e.offset as u64,
        size: e.size as usize,
    }
}

proof fn lemma_zero_from(front: Seq<u8>, name: Seq<u8>, back: Seq<u8>, i: int)
    requires
        forall|k: int| 0 <= k < name.len() ==> #[trigger] name[k] != 0,
        0 <= i <= name.len(),
    ensures
        zero_at(front + name + seq![0u8] + back, front.len() + i) == front.len() + name.len(),
    decreases name.len() - i,
{
    let b = front + name + seq![0u8] + back;
    let at = front.len() + i;
    if i < name.len() {
        assert(b[at] == name[i]);
        lemma_zero_from(front, name, back, i + 1);
    } else {
        assert(b[at] == 0);
    }
}

proof fn lemma_regroup(
    front: Seq<u8>,
    o: Seq<u8>,
    s: Seq<u8>,
    name: Seq<u8>,
    z: Seq<u8>,
    rest: Seq<u8>,
    back: Seq<u8>,
)
    ensures
        ({
            let b = front + (o + s + name + z + rest) + back;
            let at = front.len() + o.len() + s.len();
            &&& b == front + o + (s + name + z + (rest + back))
            &&& b == (front + o) + s + (name + z + (rest + back))
            &&& b == (front + (o + s)) + name + z + (rest + back)
            &&& b == (front + (o + s) + name + z) + rest + back
            &&& b.subrange(at as int, at + name.len() as int) == name
        }),
{
    let b = front + (o + s + name + z + rest) + back;
    let at = front.len() + o.len() + s.len();
    assert(b =~= front + o + (s + name + z + (rest + back)));
    assert(b =~= (front + o) + s + (name + z + (rest + back)));
    assert(b =~= (front + (o + s)) + name + z + (rest + back));
    assert(b =~= (front + (o + s) + name + z) + rest + back);
    assert(b.subrange(at as int, at + name.len() as int) =~= name);
}

proof fn lemma_rest_fits(list: Seq<DirectoryEntry>)
    requires
        names_fit(list),
        list.len() > 0,
    ensures
        names_fit(list.drop_first()),
        forall|k: int| 0 <= k < list[0].name.len() ==> #[trigger] list[0].name[k] != 0,
{
    let rest = list.drop_first();
    assert forall|i: int, k: int|
        #![trigger rest[i].name[k]]
        0 <= i < rest.len() && 0 <= k < rest[i].name.len() implies rest[i].name[k] != 0 by {
        assert(list[i + 1].name[k] != 0);
    }
}

proof fn lemma_entry(front: Seq<u8>, e: DirectoryEntry, rest: Seq<u8>, back: Seq<u8>)
    requires
        forall|k: int| 0 <= k < e.name.len() ==> #[trigger] e.name[k] != 0,
    ensures
        ({
            let b = front + (big_word(e.offset) + big_word(e.size) + e.name + seq![0u8] + rest)
                + back;
            let at = front.len() as int;
            let end = at + 8 + e.name.len();
            let next = front + (big_word(e.offset) + big_word(e.size)) + e.name + seq![0u8];
            &&& be32(b, at) == e.offset
            &&& be32(b, at + 4) == e.size
            &&& zero_at(b, at + 8) == end
            &&& end < b.len()
            &&& b.subrange(at + 8, end as int) == e.name
            &&& b == next + rest + back
            &&& next.len() == end + 1
        }),
{
    let o = big_word(e.offset);
    let s = big_word(e.size);
    let tail = rest + back;
    lemma_regroup(front, o, s, e.name, seq![0u8], rest, back);
    lemma_big_word(front, e.offset, s + e.name + seq![0u8] + tail);
    lemma_big_word(front + o, e.size, e.name + seq![0u8] + tail);
    lemma_zero_from(front + (o + s), e.name, tail, 0);
    assert((front + o).len() == front.len() + 4);
    assert((front + (o + s)).len() == front.len() + 8);
}

proof fn lemma_step(
    b: Seq<u8>,
    at: int,
    count: int,
    e: DirectoryEntry,
    end: int,
    others: Seq<BigEntryView>,
)
    requires
        0 <= at,
        0 < count,
        be32(b, at) == e.offset,
        be32(b, at + 4) == e.size,
        zero_at(b, at + 8) == end,
        at + 8 <= end < b.len(),
        b.subrange(at + 8, end) == e.name,
        entries_from(b, end + 1, count - 1) == Ok::<Seq<BigEntryView>, BigError>(others),
    ensures
        entries_from(b, at, count) == Ok::<Seq<BigEntryView>, BigError>(
            seq![entry_said(e)] + others,
        ),
{
}

proof fn lemma_entries(front: Seq<u8>, list: Seq<DirectoryEntry>, back: Seq<u8>)
    requires
        names_fit(list),
    ensures
        entries_from(
            front + entries_bytes(list) + back,
            front.len() as int,
            list.len() as int,
        ) == Ok::<Seq<BigEntryView>, BigError>(list.map_values(|e: DirectoryEntry| entry_said(e))),
    decreases list.len(),
{
    let b = front + entries_bytes(list) + back;
    let at = front.len() as int;
    let said = list.map_values(|e: DirectoryEntry| entry_said(e));
    if list.len() == 0 {
        assert(said =~= Seq::empty());
    } else {
        let e = list[0];
        let rest = list.drop_first();
        lemma_rest_fits(list);
        lemma_entry(front, e, entries_bytes(rest), back);
        let next = front + (big_word(e.offset) + big_word(e.size)) + e.name + seq![0u8];
        lemma_entries(next, rest, back);
        let others = rest.map_values(|x: DirectoryEntry| entry_said(x));
        lemma_step(b, at, list.len() as int, e, at + 8 + e.name.len(), others);
        assert(said =~= seq![entry_said(e)] + others);
    }
}

/// The directory of an archive is read back: as many entries as it counts, each with
/// its place, its size and its name.
pub proof fn law_directories_read_back(
    size: Seq<u8>,
    list: Seq<DirectoryEntry>,
    first: Seq<u8>,
    data: Seq<u8>,
)
    requires
        size.len() == 4,
        first.len() == 4,
        names_fit(list),
        list.len() <= u32::MAX,
    ensures
        directory(
            seq![0x42u8, 0x49u8, 0x47u8, 0x46u8] + size + big_word(list.len() as u32) + first
                + entries_bytes(list) + data,
        ) == Ok::<Seq<BigEntryView>, BigError>(list.map_values(|e: DirectoryEntry| entry_said(e))),
{
    let magic = seq![0x42u8, 0x49u8, 0x47u8, 0x46u8];
    let n = list.len() as u32;
    let b = magic + size + big_word(n) + first + entries_bytes(list) + data;
    assert(b =~= (magic + size) + big_word(n) + (first + entries_bytes(list) + data));
    lemma_big_word(magic + size, n, first + entries_bytes(list) + data);
    let front = magic + size + big_word(n) + first;
    assert(b =~= front + entries_bytes(list) + data);
    lemma_entries(front, list, data);
    assert(b[0] == 0x42 && b[1] == 0x49 && b[2] == 0x47 && b[3] == 0x46);
}

/// Bytes that do not begin with `BIGF` are no archive, and fewer than twelve are too
/// few.
pub proof fn law_other_files_are_no_archives(b: Seq<u8>)
    ensures
        b.len() >= 4 && !(b[0] == 0x42 && b[1] == 0x49 && b[2] == 0x47 && b[3] == 0x46)
            ==> directory(b) == Err::<Seq<BigEntryView>, BigError>(BigError::NotAnArchive),
        b.len() < 12 ==> directory(b) is Err,
{
}

/// An entry is found by its name, in any ASCII case: the first of that name.
pub proof fn law_entries_are_found(entries: Seq<BigEntryView>, name: Seq<char>, from: int, i: int)
    requires
        0 <= from,
    ensures
        from <= i < entries.len() && same_ci(entries[i].name, name) && (forall|j: int|
            from <= j < i ==> !same_ci((#[trigger] entries[j]).name, name)) ==> entry_at(
            entries,
            name,
            from,
        ) == Some(i),
        (forall|j: int| from <= j < entries.len() ==> !same_ci((#[trigger] entries[j]).name, name))
            ==> entry_at(entries, name, from) is None,
    decreases entries.len() - from,
{
    if from < entries.len() {
        law_entries_are_found(entries, name, from + 1, i);
    }
}

/// A digit of sixteen, as `%` writes it.
pub open spec fn hex_digit(d: int) -> u8 {
    if d < 10 {
        (0x30 + d) as u8
    } else {
        (0x41 + d - 10) as u8
    }
}

/// A byte as `%` and two digits.
pub open spec fn escaped(byte: u8) -> Seq<u8> {
    seq![0x25u8, hex_digit((byte / 16) as int), hex_digit((byte % 16) as int)]
}

/// Every byte of a list as `%` and two digits.
pub open spec fn all_escaped(bytes: Seq<u8>) -> Seq<u8>
    decreases bytes.len(),
{
    if bytes.len() == 0 {
        Seq::empty()
    } else {
        escaped(bytes[0]) + all_escaped(bytes.drop_first())
    }
}

proof fn lemma_escape(front: Seq<u8>, byte: u8, back: Seq<u8>)
    ensures
        escape_at(front + escaped(byte) + back, front.len() as int) == Some(byte),
{
    let b = front + escaped(byte) + back;
    let at = front.len() as int;
    assert(b[at] == 0x25 && b[at + 1] == hex_digit((byte / 16) as int) && b[at + 2] == hex_digit(
        (byte % 16) as int,
    ));
    let h = (byte / 16) as int;
    let l = (byte % 16) as int;
    assert(hex_value(hex_digit(h)) == Some(h as u8));
    assert(hex_value(hex_digit(l)) == Some(l as u8));
    assert(h * 16 + l == byte);
}

proof fn lemma_decoded(front: Seq<u8>, bytes: Seq<u8>)
    ensures
        percent_decoded(front + all_escaped(bytes), front.len() as int) == bytes,
    decreases bytes.len(),
{
    let b = front + all_escaped(bytes);
    let at = front.len() as int;
    if bytes.len() == 0 {
        assert(bytes =~= Seq::empty());
    } else {
        let rest = bytes.drop_first();
        assert(b =~= front + escaped(bytes[0]) + all_escaped(rest));
        lemma_escape(front, bytes[0], all_escaped(rest));
        assert(b =~= (front + escaped(bytes[0])) + all_escaped(rest));
        lemma_decoded(front + escaped(bytes[0]), rest);
        assert(seq![bytes[0]] + rest =~= bytes);
    }
}

/// Whatever bytes are written with `%` are read back; what is not is read as it
/// stands.
pub proof fn law_escapes_read_back(bytes: Seq<u8>)
    ensures
        percent_decoded(all_escaped(bytes), 0) == bytes,
        (forall|i: int| 0 <= i < bytes.len() ==> #[trigger] bytes[i] != 0x25) ==> percent_decoded(
            bytes,
            0,
        ) == bytes,
{
    lemma_decoded(Seq::empty(), bytes);
    assert(Seq::<u8>::empty() + all_escaped(bytes) =~= all_escaped(bytes));
    if forall|i: int| 0 <= i < bytes.len() ==> #[trigger] bytes[i] != 0x25 {
        lemma_plain(bytes, 0);
        assert(bytes.skip(0) =~= bytes);
    }
}

proof fn lemma_plain(bytes: Seq<u8>, i: int)
    requires
        0 <= i <= bytes.len(),
        forall|k: int| 0 <= k < bytes.len() ==> #[trigger] bytes[k] != 0x25,
    ensures
        percent_decoded(bytes, i) == bytes.skip(i),
    decreases bytes.len() - i,
{
    if i < bytes.len() {
        lemma_plain(bytes, i + 1);
        assert(bytes[i] != 0x25);
        assert(seq![bytes[i]] + bytes.skip(i + 1) =~= bytes.skip(i));
    } else {
        assert(bytes.skip(i) =~= Seq::empty());
    }
}

proof fn lemma_bang(a: Seq<char>, b: Seq<char>, i: int)
    requires
        0 <= i <= a.len(),
        forall|k: int| 0 <= k < a.len() ==> #[trigger] a[k] != '!',
    ensures
        bang_at(a + "!/"@ + b, i) == a.len(),
    decreases a.len() - i,
{
    reveal_strlit("!/");
    let s = a + "!/"@ + b;
    if i < a.len() {
        assert(s[i] == a[i]);
        lemma_bang(a, b, i + 1);
    } else {
        assert(s[i] == '!' && s[i + 1] == '/');
    }
}

/// The path of an entry in an archive is parted again into the archive, with slashes,
/// and the entry; where paths begin with a drive, the slash before it goes.
pub proof fn law_entry_paths_part_again(archive: Seq<char>, entry: Seq<char>, drives: bool)
    requires
        lacks(archive, '!'),
    ensures
        split_archive(entry_path(archive, entry), drives) matches Some((local, name)) && name
            == entry && {
            let slashed = replaced(archive, '\\', '/');
            if drives && slashed.len() >= 3 && slashed[0] == '/' && (slashed[1] as u32) < 0x80
                && slashed[2] == ':' {
                local == slashed.skip(1)
            } else {
                local == slashed
            }
        },
{
    reveal_strlit("!/");
    let a = replaced(archive, '\\', '/');
    let s = entry_path(archive, entry);
    assert forall|k: int| 0 <= k < a.len() implies #[trigger] a[k] != '!' by {
        assert(archive[k] != '!');
    }
    lemma_bang(a, entry, 0);
    assert(s.take(a.len() as int) =~= a);
    assert(s.skip(a.len() as int + 2) =~= entry);
}

/// A file is a sound by the extensions `wav` and `mp3`, a texture by `tga` and `dds`, in
/// any ASCII case and in any directory, and no other file is either.
pub proof fn law_assets_are_known_by_extension(
    dir: Seq<char>,
    c: char,
    stem: Seq<char>,
    ext: Seq<char>,
    uri: Seq<char>,
)
    requires
        c == '/' || c == '\\',
        lacks(stem, '/') && lacks(stem, '\\'),
        lacks(ext, '/') && lacks(ext, '\\') && lacks(ext, '.'),
    ensures
        ({
            let name = around(stem, '.', ext);
            let found = asset_of(around(dir, c, name), uri);
            if same_ci(ext, "wav"@) || same_ci(ext, "mp3"@) {
                found matches Some(a) && a.kind == AssetKind::Audio && a.name == name && a.uri
                    == uri
            } else if same_ci(ext, "tga"@) || same_ci(ext, "dds"@) {
                found matches Some(a) && a.kind == AssetKind::Texture && a.name == name && a.uri
                    == uri
            } else {
                found is None
            }
        }),
{
    let name = around(stem, '.', ext);
    assert(lacks(name, '/') && lacks(name, '\\')) by {
        assert forall|i: int| 0 <= i < name.len() implies #[trigger] name[i] != '/' && name[i]
            != '\\' by {
            if i < stem.len() {
                assert(name[i] == stem[i]);
            } else if i > stem.len() {
                assert(name[i] == ext[i - stem.len() - 1]);
            }
        }
    }
    law_last_parts(dir, c, name, '/', '\\');
    law_texts_part_at_the_last(stem, '.', ext);
}

/// The extension of a path is what stands behind the last dot of its last part; a part
/// that begins with its only dot has none.
pub proof fn law_extensions(dir: Seq<char>, stem: Seq<char>, ext: Seq<char>)
    requires
        lacks(stem, '/'),
        lacks(ext, '/') && lacks(ext, '.'),
        ext.len() > 0,
    ensures
        path_extension(around(dir, '/', around(stem, '.', ext))) == if stem.len() > 0 {
            ext
        } else {
            Seq::<char>::empty()
        },
{
    let name = around(stem, '.', ext);
    let path = around(dir, '/', name);
    assert(lacks(name, '/')) by {
        assert forall|i: int| 0 <= i < name.len() implies #[trigger] name[i] != '/' by {
            if i < stem.len() {
                assert(name[i] == stem[i]);
            } else if i > stem.len() {
                assert(name[i] == ext[i - stem.len() - 1]);
            }
        }
    }
    assert(path.last() == ext.last());
    assert(ext.last() == ext[ext.len() - 1]);
    assert(crate::scan::tidied(path) == path);
    law_last_parts(dir, '/', name, '/', '/');
    law_texts_part_at_the_last(stem, '.', ext);
}

/// Inputs are told apart by their extension, in any ASCII case.
pub proof fn law_inputs_are_known_by_extension(ext: Seq<char>)
    ensures
        same_ci(ext, "big"@) ==> input_kind_of(ext) == InputKind::Archive,
        same_ci(ext, "ini"@) ==> input_kind_of(ext) == InputKind::Ini,
        same_ci(ext, "w3d"@) ==> input_kind_of(ext) == InputKind::Model,
        same_ci(ext, "wav"@) || same_ci(ext, "mp3"@) || same_ci(ext, "tga"@) || same_ci(ext, "dds"@)
            ==> input_kind_of(ext) == InputKind::Asset,
{
    reveal_strlit("big");
    reveal_strlit("ini");
    reveal_strlit("w3d");
    reveal_strlit("wav");
    reveal_strlit("mp3");
    reveal_strlit("tga");
    reveal_strlit("dds");
    let l = crate::text::lower(ext);
    if same_ci(ext, "ini"@) || same_ci(ext, "w3d"@) || same_ci(ext, "wav"@) || same_ci(ext, "mp3"@)
        || same_ci(ext, "tga"@) || same_ci(ext, "dds"@) || same_ci(ext, "big"@) {
        assert(l.len() == 3);
        assert(crate::text::lower("big"@)[0] == 'b');
        assert(crate::text::lower("ini"@)[0] == 'i');
        assert(crate::text::lower("w3d"@)[0] == 'w' && crate::text::lower("w3d"@)[1] == '3');
        assert(crate::text::lower("wav"@)[0] == 'w' && crate::text::lower("wav"@)[1] == 'a');
        assert(crate::text::lower("mp3"@)[0] == 'm');
        assert(crate::text::lower("tga"@)[0] == 't');
        assert(crate::text::lower("dds"@)[0] == 'd');
    }
}

/// A line of text that is no comment and does not close an entry.
pub open spec fn plain_line(line: Seq<char>) -> bool {
    &&& line.len() > 0
    &&& lacks(line, '\n')
    &&& line[0] != ';'
    &&& !in_class(line[0], CharClass::Space)
    &&& !in_class(line.last(), CharClass::Space)
    &&& !same_ci(line, "END"@)
}

proof fn lemma_line(front: Seq<char>, line: Seq<char>, back: Seq<char>, expect: bool)
    requires
        plain_line(line),
    ensures
        keys_from(front + line + "\n"@ + back, front.len() as int, expect) == (if expect {
            seq![line]
        } else {
            Seq::<Seq<char>>::empty()
        }) + keys_from(
            front + line + "\n"@ + back,
            front.len() as int + line.len() + 1,
            false,
        ),
{
    reveal_strlit("\n");
    let s = front + line + "\n"@ + back;
    let at = front.len() as int;
    let end = at + line.len();
    assert(s[end] == '\n');
    lemma_find_from(s, at, end, line);
    assert(s.subrange(at, end) =~= line);
    assert(trim(line, CharClass::Space) == line) by {
        assert(crate::text::trim_start(line, CharClass::Space) == line);
    }
    let rest = keys_from(s, end + 1, false);
    assert(Seq::<Seq<char>>::empty() + rest =~= rest);
}

proof fn lemma_find_from(s: Seq<char>, at: int, end: int, line: Seq<char>)
    requires
        0 <= at <= end < s.len(),
        s[end] == '\n',
        lacks(line, '\n'),
        line.len() == end - at,
        forall|k: int| at <= k < end ==> #[trigger] s[k] == line[k - at],
    ensures
        crate::text::find(s, '\n', at) == end,
    decreases end - at,
{
    if at < end {
        assert(s[at] == line[0]);
        let rest = line.skip(1);
        assert(lacks(rest, '\n')) by {
            assert forall|i: int| 0 <= i < rest.len() implies #[trigger] rest[i] != '\n' by {
                assert(rest[i] == line[i + 1]);
            }
        }
        assert forall|k: int| at + 1 <= k < end implies #[trigger] s[k] == rest[k - (at + 1)] by {
            assert(s[k] == line[k - at]);
        }
        lemma_find_from(s, at + 1, end, rest);
    }
}

/// An entry of a string table is its key, a line of text, and the word `END`: the key
/// is found, the text is not, and behind the `END` the next key is looked for.
pub proof fn law_string_keys_are_read(
    front: Seq<char>,
    key: Seq<char>,
    text: Seq<char>,
    close: Seq<char>,
    back: Seq<char>,
)
    requires
        plain_line(key),
        plain_line(text),
        same_ci(close, "END"@),
        lacks(close, '\n'),
    ensures
        ({
            let s = front + key + "\n"@ + text + "\n"@ + close + "\n"@ + back;
            let from = front.len() as int;
            let next = from + key.len() + text.len() + close.len() + 3;
            keys_from(s, from, true) == seq![key] + keys_from(s, next, true)
        }),
{
    reveal_strlit("\n");
    reveal_strlit("END");
    let s = front + key + "\n"@ + text + "\n"@ + close + "\n"@ + back;
    let from = front.len() as int;
    assert(s =~= front + key + "\n"@ + (text + "\n"@ + close + "\n"@ + back));
    lemma_line(front, key, text + "\n"@ + close + "\n"@ + back, true);
    let second = front + key + "\n"@;
    assert(s =~= second + text + "\n"@ + (close + "\n"@ + back));
    lemma_line(second, text, close + "\n"@ + back, false);
    let third = second + text + "\n"@;
    let at = third.len() as int;
    let end = at + close.len();
    assert(s =~= third + close + "\n"@ + back);
    assert(s[end] == '\n');
    assert forall|k: int| at <= k < end implies #[trigger] s[k] == close[k - at] by {}
    lemma_find_from(s, at, end, close);
    assert(s.subrange(at, end) =~= close);
    let l = crate::text::lower(close);
    assert(l.len() == 3 && l[0] == 'e' && l[2] == 'd') by {
        assert(crate::text::lower("END"@)[0] == 'e' && crate::text::lower("END"@)[2] == 'd');
    }
    assert(crate::text::lower_char(close[0]) == 'e' && crate::text::lower_char(close[2]) == 'd');
    assert(trim(close, CharClass::Space) == close) by {
        assert(crate::text::trim_start(close, CharClass::Space) == close);
    }
    let rest = keys_from(s, end + 1, true);
    assert(keys_from(s, at, false) == rest);
    assert(Seq::<Seq<char>>::empty() + keys_from(s, at, false) =~= rest);
}

} // verus!
