//! The directory of a BIG archive.
//!
//! An archive starts with `BIGF`, its size and the number of entries, both
//! big-endian. From byte 16 on each entry has its offset, its size and its
//! name, which a zero byte ends.

use vstd::prelude::*;
use vstd::slice::slice_subrange;

use crate::order::views;
use crate::text::{eq_ci, same_ci};
use crate::uri::{replace_char, replaced};
use crate::w3d::{from_lossy, lossy_text, zero_at};

verus! {

/// The largest asset that is read for a preview.
pub const MAX_PREVIEW_ASSET_BYTES: u64 = 134_217_728;

/// An entry of an archive.
#[derive(Debug, PartialEq, Eq)]
pub struct BigEntry {
    pub name: String,
    pub offset: u64,
    pub size: usize,
}

/// The model of a [`BigEntry`].
pub struct BigEntryView {
    pub name: Seq<char>,
    pub offset: u64,
    pub size: usize,
}

impl View for BigEntry {
    type V = BigEntryView;

    open spec fn view(&self) -> BigEntryView {
        BigEntryView { name: self.name@, offset: self.offset, size: self.size }
    }
}

/// Why a directory could not be read.
#[derive(Debug, Clone, Copy, PartialEq, Eq, Structural)]
pub enum BigError {
    /// The bytes end inside the directory.
    Truncated,
    /// The bytes do not start with `BIGF`.
    NotAnArchive,
}

/// The big-endian number at `at`.
pub open spec fn be32(b: Seq<u8>, at: int) -> u32 {
    (16777216 * b[at] + 65536 * b[at + 1] + 256 * b[at + 2] + b[at + 3]) as u32
}

/// Reads a big-endian number.
pub fn read_u32_be(b: &[u8], at: usize) -> (r: u32)
    requires
        at + 4 <= b.len(),
    ensures
        r == be32(b@, at as int),
{
    let a: u32 = b[at] as u32;
    let c: u32 = b[at + 1] as u32;
    let d: u32 = b[at + 2] as u32;
    let e: u32 = b[at + 3] as u32;
    16777216 * a + 65536 * c + 256 * d + e
}

/// The name in the bytes `from..to`, with forward slashes.
pub open spec fn entry_name(b: Seq<u8>, from: int, to: int) -> Seq<char> {
    replaced(lossy_text(b.subrange(from, to)), '\\', '/')
}

/// `count` entries from `at` on.
pub open spec fn entries_from(b: Seq<u8>, at: int, count: int) -> Result<
    Seq<BigEntryView>,
    BigError,
>
    decreases count,
{
    if count <= 0 {
        Ok(Seq::empty())
    } else if at < 0 || at + 8 > b.len() {
        Err(BigError::Truncated)
    } else {
        let end = zero_at(b, at + 8);
        if end >= b.len() {
            Err(BigError::Truncated)
        } else {
            let here = BigEntryView {
                name: entry_name(b, at + 8, end),
                offset: be32(b, at) as u64,
                size: be32(b, at + 4) as usize,
            };
            match entries_from(b, end + 1, count - 1) {
                Ok(rest) => Ok(seq![here] + rest),
                Err(e) => Err(e),
            }
        }
    }
}

/// The directory at the start of an archive's bytes.
pub open spec fn directory(b: Seq<u8>) -> Result<Seq<BigEntryView>, BigError> {
    if b.len() < 4 {
        Err(BigError::Truncated)
    } else if !(b[0] == 0x42 && b[1] == 0x49 && b[2] == 0x47 && b[3] == 0x46) {
        Err(BigError::NotAnArchive)
    } else if b.len() < 12 {
        Err(BigError::Truncated)
    } else {
        entries_from(b, 16, be32(b, 8) as int)
    }
}

/// Reads a name up to its zero byte, and gives the position after that byte.
fn read_c_string(b: &[u8], at: usize) -> (r: Option<(String, usize)>)
    requires
        at <= b.len(),
    ensures
        match r {
            Some(x) => x.0@ == lossy_text(b@.subrange(at as int, zero_at(b@, at as int))) && x.1
                == zero_at(b@, at as int) + 1 && x.1 <= b.len(),
            None => zero_at(b@, at as int) >= b@.len(),
        },
{
    let mut end: usize = at;
    while end < b.len() && b[end] != 0
        invariant
            at <= end <= b.len(),
            zero_at(b@, at as int) == zero_at(b@, end as int),
        decreases b.len() - end,
    {
        end += 1;
    }
    if end >= b.len() {
        return None;
    }
    Some((from_lossy(slice_subrange(b, at, end)), end + 1))
}

/// Reads the directory at the start of an archive's bytes. The bytes need not
/// reach past the directory.
pub fn big_entries(bytes: &[u8]) -> (r: Result<Vec<BigEntry>, BigError>)
    ensures
        match (r, directory(bytes@)) {
            (Ok(list), Ok(v)) => views(list@) == v,
            (Err(e), Err(x)) => e == x,
            _ => false,
        },
{
    let ghost b = bytes@;
    if bytes.len() < 4 {
        return Err(BigError::Truncated);
    }
    if !(bytes[0] == 0x42 && bytes[1] == 0x49 && bytes[2] == 0x47 && bytes[3] == 0x46) {
        return Err(BigError::NotAnArchive);
    }
    if bytes.len() < 12 {
        return Err(BigError::Truncated);
    }
    let count: u32 = read_u32_be(bytes, 8);
    let ghost whole = directory(b);
    let mut out: Vec<BigEntry> = Vec::new();
    proof {
        if let Ok(v) = whole {
            assert(views(out@) + v =~= v);
        }
    }
    let mut at: usize = 16;
    let mut left: u32 = count;
    while left > 0
        invariant
            b == bytes@,
            whole == directory(b),
            whole == match entries_from(b, at as int, left as int) {
                Ok(rest) => Ok(views(out@) + rest),
                Err(e) => Err(e),
            },
        decreases left,
    {
        if at > bytes.len() || bytes.len() - at < 8 {
            return Err(BigError::Truncated);
        }
        let offset: u64 = read_u32_be(bytes, at) as u64;
        let size: usize = read_u32_be(bytes, at + 4) as usize;
        match read_c_string(bytes, at + 8) {
            Some((raw, next)) => {
                let name = replace_char(raw.as_str(), '\\', '/');
                let ghost before = views(out@);
                let entry = BigEntry { name, offset, size };
                let ghost item = entry@;
                out.push(entry);
                proof {
                    assert(views(out@) =~= before.push(item));
                    if let Ok(rest) = entries_from(b, next as int, left - 1) {
                        assert(views(out@) + rest =~= before + (seq![item] + rest));
                    }
                }
                at = next;
            },
            None => {
                return Err(BigError::Truncated);
            },
        }
        left -= 1;
    }
    assert(views(out@) + Seq::<BigEntryView>::empty() =~= views(out@));
    Ok(out)
}

/// The first entry of that name, from `i` on.
pub open spec fn entry_at(entries: Seq<BigEntryView>, name: Seq<char>, i: int) -> Option<int>
    decreases entries.len() - i,
{
    if i < 0 || i >= entries.len() {
        None
    } else if same_ci(entries[i].name, name) {
        Some(i)
    } else {
        entry_at(entries, name, i + 1)
    }
}

/// Why an asset of an archive is not read.
#[derive(Debug, Clone, Copy, PartialEq, Eq, Structural)]
pub enum AssetError {
    NotFound,
    /// It exceeds [`MAX_PREVIEW_ASSET_BYTES`].
    TooLarge,
}

/// Whether an asset is small enough to be read for a preview.
pub fn fits_preview(size: u64) -> (r: bool)
    ensures
        r == (size <= MAX_PREVIEW_ASSET_BYTES),
{
    size <= MAX_PREVIEW_ASSET_BYTES
}

/// Finds the asset of that name, in any ASCII case, to be read for a preview.
pub fn find_asset(entries: &Vec<BigEntry>, name: &str) -> (r: Result<usize, AssetError>)
    ensures
        match entry_at(views(entries@), name@, 0) {
            None => r == Err::<usize, AssetError>(AssetError::NotFound),
            Some(i) => 0 <= i < entries@.len() && r == (if entries@[i].size
                <= MAX_PREVIEW_ASSET_BYTES {
                Ok::<usize, AssetError>(i as usize)
            } else {
                Err::<usize, AssetError>(AssetError::TooLarge)
            }),
        },
{
    let ghost vs = views(entries@);
    let mut i: usize = 0;
    while i < entries.len()
        invariant
            i <= entries.len(),
            vs == views(entries@),
            entry_at(vs, name@, 0) == entry_at(vs, name@, i as int),
        decreases entries.len() - i,
    {
        assert(vs[i as int] == entries@[i as int]@);
        if eq_ci(entries[i].name.as_str(), name) {
            return if fits_preview(entries[i].size as u64) {
                Ok(i)
            } else {
                Err(AssetError::TooLarge)
            };
        }
        i += 1;
    }
    Err(AssetError::NotFound)
}

proof fn lemma_entries_count(b: Seq<u8>, at: int, count: int)
    ensures
        entries_from(b, at, count) matches Ok(v) ==> v.len() == if count > 0 {
            count
        } else {
            0
        },
    decreases count,
{
    if count > 0 && at >= 0 && at + 8 <= b.len() && zero_at(b, at + 8) < b.len() {
        lemma_entries_count(b, zero_at(b, at + 8) + 1, count - 1);
    }
}

/// A directory that can be read has as many entries as its header says.
pub proof fn law_directory_is_complete(b: Seq<u8>)
    requires
        directory(b) is Ok,
    ensures
        directory(b)->Ok_0.len() == be32(b, 8),
{
    lemma_entries_count(b, 16, be32(b, 8) as int);
}

} // verus!
