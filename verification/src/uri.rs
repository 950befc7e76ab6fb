//! Identity of scanned inputs and client requests: BIG archive URIs and the
//! paths in them.

use vstd::prelude::*;

use crate::text::{chars_of, join3, push_char, same, string_from};
use crate::w3d::{from_lossy, lossy_text};

verus! {

/// The most bytes that a path may take in a URL: the `url` crate counts the
/// bytes of a URL in 32 bits.
pub const MAX_URL_BYTES: u64 = 0xffff_ff00;

/// How many bytes a scalar may take in a URL: some stand for themselves, and an
/// escape makes three bytes of every byte of the others.
pub open spec fn url_width(c: char) -> nat {
    if 'a' <= c <= 'z' || 'A' <= c <= 'Z' || '0' <= c <= '9' || c == '/' || c == '.' || c == '-'
        || c == '_' {
        1
    } else if (c as u32) < 0x80 {
        3
    } else if (c as u32) < 0x800 {
        6
    } else if (c as u32) < 0x10000 {
        9
    } else {
        12
    }
}

/// How many bytes a text may take in a URL, from scalar `i` on.
pub open spec fn url_size(s: Seq<char>, i: int) -> nat
    decreases s.len() - i,
{
    if i < 0 || i >= s.len() {
        0
    } else {
        url_width(s[i]) + url_size(s, i + 1)
    }
}

/// Whether a text is sure to fit into a URL.
pub open spec fn fits_url(s: Seq<char>) -> bool {
    url_size(s, 0) <= MAX_URL_BYTES
}

/// Decides [`fits_url`].
pub fn is_url_sized(text: &str) -> (r: bool)
    ensures
        r == fits_url(text@),
{
    let chars = chars_of(text);
    let mut total: u64 = 0;
    let mut i: usize = 0;
    while i < chars.len()
        invariant
            i <= chars.len(),
            chars@ == text@,
            total <= MAX_URL_BYTES,
            total + url_size(text@, i as int) == url_size(text@, 0),
        decreases chars.len() - i,
    {
        let c: char = chars[i];
        let code: u32 = c as u32;
        let width: u64 = if ('a' <= c && c <= 'z') || ('A' <= c && c <= 'Z') || ('0' <= c && c
            <= '9') || c == '/' || c == '.' || c == '-' || c == '_' {
            1
        } else if code < 0x80 {
            3
        } else if code < 0x800 {
            6
        } else if code < 0x10000 {
            9
        } else {
            12
        };
        total += width;
        if total > MAX_URL_BYTES {
            return false;
        }
        i += 1;
    }
    true
}

/// The value of a hexadecimal digit.
pub open spec fn hex_value(b: u8) -> Option<u8> {
    if 0x30 <= b <= 0x39 {
        Some((b - 0x30) as u8)
    } else if 0x41 <= b <= 0x46 {
        Some((b - 0x41 + 10) as u8)
    } else if 0x61 <= b <= 0x66 {
        Some((b - 0x61 + 10) as u8)
    } else {
        None
    }
}

/// The byte that a `%` with two hexadecimal digits at `i` stands for.
pub open spec fn escape_at(b: Seq<u8>, i: int) -> Option<u8> {
    if 0 <= i && i + 2 < b.len() && b[i] == 0x25 {
        match (hex_value(b[i + 1]), hex_value(b[i + 2])) {
            (Some(h), Some(l)) => Some((h * 16 + l) as u8),
            _ => None,
        }
    } else {
        None
    }
}

/// The bytes from `i` on, with escapes decoded.
pub open spec fn percent_decoded(b: Seq<u8>, i: int) -> Seq<u8>
    decreases b.len() - i,
{
    if i < 0 || i >= b.len() {
        Seq::empty()
    } else {
        match escape_at(b, i) {
            Some(byte) => seq![byte] + percent_decoded(b, i + 3),
            None => seq![b[i]] + percent_decoded(b, i + 1),
        }
    }
}

/// Decodes percent escapes with `percent_encoding::percent_decode_str`: every
/// `%` with two hexadecimal digits stands for one byte, and every other byte
/// for itself.
#[verifier::external_body]
pub(crate) fn percent_decode(path: &str) -> (r: Vec<u8>)
    ensures
        r@ == percent_decoded(vstd::utf8::encode_utf8(path@), 0),
{
    percent_encoding::percent_decode_str(path).collect()
}

/// Reads bytes as UTF-8 with `String::from_utf8`, which refuses ill-formed
/// ones.
#[verifier::external_body]
pub(crate) fn from_utf8(bytes: Vec<u8>) -> (r: Option<String>)
    ensures
        match r {
            Some(text) => vstd::utf8::valid_utf8(bytes@) && text@ == vstd::utf8::decode_utf8(
                bytes@,
            ),
            None => !vstd::utf8::valid_utf8(bytes@),
        },
{
    String::from_utf8(bytes).ok()
}

/// The URI `big:///` with its path set by `Url::set_path`, which normalises and
/// percent-encodes it.
pub uninterp spec fn big_url(path: Seq<char>) -> Seq<char>;

/// Makes the URI of a path in a BIG archive with `Url::set_path`, named by
/// [`big_url`]. It panics where the URL has more than `u32::MAX` bytes.
#[verifier::external_body]
pub(crate) fn make_big_url(path: &str) -> (r: String)
    requires
        fits_url(path@),
    ensures
        r@ == big_url(path@),
{
    let mut uri = tower_lsp::lsp_types::Url::parse("big:///").expect("static BIG URI is valid");
    uri.set_path(path);
    uri.to_string()
}

/// Whether a path starts with a lower-case drive: `/c:`.
pub open spec fn lower_drive(s: Seq<char>) -> bool {
    s.len() >= 3 && (s[0] as u32) < 0x80 && 'a' <= s[1] && s[1] <= 'z' && s[2] == ':'
}

/// An ASCII letter in upper case.
pub open spec fn upper_letter(c: char) -> char {
    if 'a' <= c && c <= 'z' {
        (c as u32 - 32) as char
    } else {
        c
    }
}

/// A path with its drive in upper case.
pub open spec fn with_upper_drive(s: Seq<char>) -> Seq<char> {
    if lower_drive(s) {
        s.update(1, upper_letter(s[1]))
    } else {
        s
    }
}

/// Puts the drive of a path in upper case. Clients lowercase drive letters,
/// and scanners can meet either spelling.
pub fn uppercase_drive(path: &str) -> (r: String)
    ensures
        r@ == with_upper_drive(path@),
{
    let chars = chars_of(path);
    if chars.len() >= 3 && (chars[0] as u32) < 0x80 && 'a' <= chars[1] && chars[1] <= 'z'
        && chars[2] == ':' {
        let code: u8 = chars[1] as u8;
        let upper: char = (code - 32) as char;
        let mut out = string_from(&chars, 0, 1);
        push_char(&mut out, upper);
        let rest = string_from(&chars, 2, chars.len());
        out.append(rest.as_str());
        assert(out@ =~= with_upper_drive(path@));
        return out;
    }
    path.to_owned()
}

/// The canonical path of a BIG URI: decoded, with its drive in upper case.
pub open spec fn canonical_path(path: Seq<char>) -> Option<Seq<char>> {
    let bytes = percent_decoded(vstd::utf8::encode_utf8(path), 0);
    if vstd::utf8::valid_utf8(bytes) {
        Some(with_upper_drive(vstd::utf8::decode_utf8(bytes)))
    } else {
        None
    }
}

/// The canonical form of a BIG URI with that path; nothing when its escapes are
/// no text, or when it is too long to be one.
pub fn canonical_big_uri(path: &str) -> (r: Option<String>)
    ensures
        match r {
            Some(uri) => canonical_path(path@) matches Some(p) && fits_url(p) && uri@ == big_url(p),
            None => canonical_path(path@) matches Some(p) ==> !fits_url(p),
        },
{
    match from_utf8(percent_decode(path)) {
        Some(decoded) => {
            let canonical = uppercase_drive(decoded.as_str());
            if !is_url_sized(canonical.as_str()) {
                return None;
            }
            Some(make_big_url(canonical.as_str()))
        },
        None => None,
    }
}

/// The scheme and the path of a URL, as `Url::parse`, `Url::scheme` and
/// `Url::path` of the `url` crate read them; nothing where the text is no URL.
pub uninterp spec fn url_parts(text: Seq<char>) -> Option<(Seq<char>, Seq<char>)>;

/// Calls `Url::parse` and takes `Url::scheme` and `Url::path`, named by
/// [`url_parts`].
#[verifier::external_body]
pub(crate) fn parse_url(text: &str) -> (r: Option<(String, String)>)
    requires
        fits_url(text@),
    ensures
        (match r {
            Some(parts) => Some((parts.0@, parts.1@)),
            None => None,
        }) == url_parts(text@),
{
    let url = tower_lsp::lsp_types::Url::parse(text).ok()?;
    Some((url.scheme().to_string(), url.path().to_string()))
}

/// The URI of the path on disk that a URI stands for, with `Url::parse`,
/// `Url::to_file_path` and `Url::from_file_path`. Which path that is depends on
/// the machine; the URI starts with `file://`.
#[verifier::external_body]
fn file_form_of(text: &str) -> (r: Option<String>)
    requires
        fits_url(text@),
    ensures
        r matches Some(uri) ==> "file://"@.is_prefix_of(uri@),
{
    let path = tower_lsp::lsp_types::Url::parse(text).ok()?.to_file_path().ok()?;
    let url = tower_lsp::lsp_types::Url::from_file_path(path).ok()?;
    Some(url.to_string())
}

/// The canonical form of a URI of that scheme and path, or nothing where the
/// URI is to be kept as it is. `file_form` is the URI of the path on disk that
/// a `file` URI stands for, where it stands for one.
pub fn canonical_form(scheme: &str, path: &str, file_form: Option<String>) -> (r: Option<String>)
    ensures
        match r {
            Some(uri) => if scheme@ == "file"@ {
                file_form matches Some(f) && uri@ == f@
            } else {
                scheme@ == "big"@ && (canonical_path(path@) matches Some(p) && fits_url(p) && uri@ == big_url(p))
            },
            None => if scheme@ == "file"@ {
                file_form is None
            } else {
                scheme@ == "big"@ ==> (canonical_path(path@) matches Some(p) ==> !fits_url(p))
            },
        },
{
    if same(scheme, "file") {
        file_form
    } else if same(scheme, "big") {
        canonical_big_uri(path)
    } else {
        None
    }
}

/// Normalises a URI before it is used as a key: a BIG URI gets its path decoded
/// and its drive in upper case, a `file` URI takes the form of the path on disk
/// that it stands for, where it stands for one, and any other text stays. The
/// form of a `file` URI depends on the machine: [`canonical_form`] says what is
/// done with it.
pub fn canonical_uri(uri: &str) -> (r: String)
    ensures
        !fits_url(uri@) ==> r@ == uri@,
        fits_url(uri@) ==> match url_parts(uri@) {
            Some((scheme, path)) => {
                &&& scheme == "big"@ ==> r@ == (match canonical_path(path) {
                    Some(p) => if fits_url(p) {
                        big_url(p)
                    } else {
                        uri@
                    },
                    None => uri@,
                })
                &&& scheme == "file"@ ==> r@ == uri@ || "file://"@.is_prefix_of(r@)
                &&& scheme != "big"@ && scheme != "file"@ ==> r@ == uri@
            },
            None => r@ == uri@,
        },
{
    if !is_url_sized(uri) {
        return uri.to_owned();
    }
    assert("big"@.len() == 3 && "file"@.len() == 4) by {
        reveal_strlit("big");
        reveal_strlit("file");
    }
    let form = match parse_url(uri) {
        Some((scheme, path)) => {
            assert(url_parts(uri@) == Some((scheme@, path@)));
            let on_disk = if same(scheme.as_str(), "file") {
                file_form_of(uri)
            } else {
                None
            };
            canonical_form(scheme.as_str(), path.as_str(), on_disk)
        },
        None => None,
    };
    match form {
        Some(text) => text,
        None => uri.to_owned(),
    }
}

/// A text with every `a` turned into `b`.
pub open spec fn replaced(s: Seq<char>, a: char, b: char) -> Seq<char> {
    s.map_values(
        |c: char|
            if c == a {
                b
            } else {
                c
            },
    )
}

/// Turns every `a` into `b`.
pub fn replace_char(text: &str, a: char, b: char) -> (r: String)
    ensures
        r@ == replaced(text@, a, b),
{
    let chars = chars_of(text);
    let mut out = String::new();
    let mut i: usize = 0;
    while i < chars.len()
        invariant
            i <= chars.len(),
            chars@ == text@,
            out@ == replaced(text@, a, b).take(i as int),
        decreases chars.len() - i,
    {
        let c: char = chars[i];
        if c == a {
            push_char(&mut out, b);
        } else {
            push_char(&mut out, c);
        }
        assert(out@ =~= replaced(text@, a, b).take(i + 1));
        i += 1;
    }
    assert(out@ =~= replaced(text@, a, b));
    out
}

/// The path of an entry in an archive.
pub open spec fn entry_path(archive: Seq<char>, entry: Seq<char>) -> Seq<char> {
    replaced(archive, '\\', '/') + "!/"@ + entry
}

/// The URI of an entry in an archive; nothing when the path is too long.
pub fn big_uri(archive: &str, entry: &str) -> (r: Option<String>)
    ensures
        match r {
            Some(uri) => uri@ == big_url(entry_path(archive@, entry@)) && fits_url(entry_path(archive@, entry@)),
            None => !fits_url(entry_path(archive@, entry@)),
        },
{
    let normal = replace_char(archive, '\\', '/');
    let path = join3(normal.as_str(), "!/", entry);
    if !is_url_sized(path.as_str()) {
        return None;
    }
    Some(make_big_url(path.as_str()))
}

/// The position of the first `!/`, from `i` on, or the length.
pub open spec fn bang_at(s: Seq<char>, i: int) -> int
    decreases s.len() - i,
{
    if i < 0 || i + 1 >= s.len() {
        s.len() as int
    } else if s[i] == '!' && s[i + 1] == '/' {
        i
    } else {
        bang_at(s, i + 1)
    }
}

/// An archive path and an entry name, split at the first `!/`. With
/// `drive_paths`, the slash before a drive is no part of the archive path.
pub open spec fn split_archive(s: Seq<char>, drive_paths: bool) -> Option<(Seq<char>, Seq<char>)> {
    let at = bang_at(s, 0);
    if at >= s.len() {
        None
    } else {
        let archive = s.take(at);
        let local = if drive_paths && archive.len() >= 3 && archive[0] == '/' && (archive[1] as u32)
            < 0x80 && archive[2] == ':' {
            archive.skip(1)
        } else {
            archive
        };
        Some((local, s.skip(at + 2)))
    }
}

/// Splits the path of a BIG URI, whose escapes are decoded first, into the
/// archive's path and the name of the entry.
pub fn split_big_path(path: &str, drive_paths: bool) -> (r: Option<(String, String)>)
    ensures
        match (
            r,
            split_archive(
                lossy_text(percent_decoded(vstd::utf8::encode_utf8(path@), 0)),
                drive_paths,
            ),
        ) {
            (Some(pair), Some(v)) => pair.0@ == v.0 && pair.1@ == v.1,
            (None, None) => true,
            _ => false,
        },
{
    let bytes = percent_decode(path);
    let decoded = from_lossy(bytes.as_slice());
    split_archive_path(decoded.as_str(), drive_paths)
}

/// Splits a decoded path into the archive's path and the name of the entry.
pub fn split_archive_path(path: &str, drive_paths: bool) -> (r: Option<(String, String)>)
    ensures
        match (r, split_archive(path@, drive_paths)) {
            (Some(pair), Some(v)) => pair.0@ == v.0 && pair.1@ == v.1,
            (None, None) => true,
            _ => false,
        },
{
    let chars = chars_of(path);
    let n: usize = chars.len();
    let mut i: usize = 0;
    while i < n && n - i > 1
        invariant
            n == chars.len(),
            i <= n,
            chars@ == path@,
            bang_at(path@, 0) == bang_at(path@, i as int),
        decreases n - i,
    {
        if chars[i] == '!' && chars[i + 1] == '/' {
            let from: usize = if drive_paths && i >= 3 && chars[0] == '/' && (chars[1] as u32)
                < 0x80 && chars[2] == ':' {
                1
            } else {
                0
            };
            let archive = string_from(&chars, from, i);
            let entry = string_from(&chars, i + 2, n);
            proof {
                let whole = path@.take(i as int);
                if from == 1 {
                    assert(whole.skip(1) =~= path@.subrange(1, i as int));
                }
                assert(whole =~= path@.subrange(0, i as int));
                assert(path@.skip(i + 2) =~= path@.subrange(i + 2, n as int));
            }
            return Some((archive, entry));
        }
        i += 1;
    }
    None
}

proof fn lemma_no_escapes(b: Seq<u8>, i: int)
    requires
        0 <= i <= b.len(),
        forall|k: int| 0 <= k < b.len() ==> #[trigger] b[k] != 0x25,
    ensures
        percent_decoded(b, i) == b.skip(i),
    decreases b.len() - i,
{
    if i < b.len() {
        lemma_no_escapes(b, i + 1);
        assert(b[i] != 0x25);
        assert(b.skip(i) =~= seq![b[i]] + b.skip(i + 1));
    } else {
        assert(b.skip(i) =~= Seq::<u8>::empty());
    }
}

/// Both spellings of a drive lead to one path.
pub proof fn law_drive_spellings_agree(a: Seq<char>, b: Seq<char>)
    requires
        a.len() == b.len(),
        lower_drive(a),
        b == a.update(1, upper_letter(a[1])),
    ensures
        with_upper_drive(a) == with_upper_drive(b),
{
}

/// Decoding leaves a path without a percent sign as it is.
pub proof fn law_plain_paths_are_canonical(path: Seq<char>)
    requires
        forall|k: int|
            0 <= k < vstd::utf8::encode_utf8(path).len() ==> #[trigger] vstd::utf8::encode_utf8(
                path,
            )[k] != 0x25,
    ensures
        canonical_path(path) == Some(with_upper_drive(path)),
{
    let b = vstd::utf8::encode_utf8(path);
    lemma_no_escapes(b, 0);
    assert(b.skip(0) =~= b);
    vstd::utf8::encode_utf8_valid_utf8(path);
    vstd::utf8::encode_utf8_decode_utf8(path);
}

} // verus!
