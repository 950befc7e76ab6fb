//! Text rules shared by every module: ASCII case folding, trimming, splitting
//! and numbers, stated over the scalars of a string.

use vstd::prelude::*;
use vstd::std_specs::iter::IteratorSpec;
use vstd::string::*;

verus! {

/// Appends one scalar with `String::push`: the text grows by exactly that
/// scalar, at its end.
#[verifier::external_body]
pub(crate) fn push_char(text: &mut String, c: char)
    ensures
        final(text)@ == old(text)@.push(c),
{
    text.push(c);
}

/// The scalars of `text`, in order.
pub fn chars_of(text: &str) -> (out: Vec<char>)
    ensures
        out@ == text@,
{
    let mut out: Vec<char> = Vec::new();
    for c in it: text.chars()
        invariant
            out@ == it.seq().take(it.index() as int),
            it.seq() == text@,
    {
        out.push(c);
    }
    out
}

/// The string made of the scalars `from..to` of `chars`.
pub fn string_from(chars: &Vec<char>, from: usize, to: usize) -> (out: String)
    requires
        from <= to <= chars.len(),
    ensures
        out@ == chars@.subrange(from as int, to as int),
{
    let mut out = String::new();
    let mut i: usize = from;
    while i < to
        invariant
            from <= i <= to <= chars.len(),
            out@ == chars@.subrange(from as int, i as int),
        decreases to - i,
    {
        push_char(&mut out, chars[i]);
        assert(chars@.subrange(from as int, i + 1) == chars@.subrange(from as int, i as int).push(
            chars@[i as int],
        ));
        i += 1;
    }
    out
}

/// The views of a list of strings.
pub open spec fn texts(list: Seq<String>) -> Seq<Seq<char>> {
    list.map_values(|s: String| s@)
}

/// The views of a list of string slices.
pub open spec fn slices(list: Seq<&str>) -> Seq<Seq<char>> {
    list.map_values(|s: &str| s@)
}

/// Exact comparison of two texts.
pub fn same(a: &str, b: &str) -> (r: bool)
    ensures
        r == (a@ == b@),
{
    let x = a.as_bytes();
    let y = b.as_bytes();
    if x.len() != y.len() {
        return false;
    }
    let mut i: usize = 0;
    while i < x.len()
        invariant
            i <= x.len(),
            x.len() == y.len(),
            x@ == vstd::utf8::encode_utf8(a@),
            y@ == vstd::utf8::encode_utf8(b@),
            forall|k: int| 0 <= k < i ==> x@[k] == y@[k],
        decreases x.len() - i,
    {
        if x[i] != y[i] {
            assert(x@[i as int] != y@[i as int]);
            return false;
        }
        i += 1;
    }
    proof {
        assert(x@ =~= y@);
        vstd::utf8::encode_utf8_decode_utf8(a@);
        vstd::utf8::encode_utf8_decode_utf8(b@);
    }
    true
}

/// ASCII lower case of one scalar: `A` to `Z` become `a` to `z`.
pub open spec fn lower_char(c: char) -> char {
    if 'A' <= c && c <= 'Z' {
        ((c as u32) + 32) as char
    } else {
        c
    }
}

/// ASCII lower case, scalar by scalar.
pub open spec fn lower(s: Seq<char>) -> Seq<char> {
    s.map_values(|c: char| lower_char(c))
}

/// Whether two texts differ at most in ASCII case.
pub open spec fn same_ci(a: Seq<char>, b: Seq<char>) -> bool {
    lower(a) == lower(b)
}

fn lower_one(c: char) -> (r: char)
    ensures
        r == lower_char(c),
{
    if 'A' <= c && c <= 'Z' {
        let byte: u8 = c as u8;
        let low: u8 = byte + 32;
        low as char
    } else {
        c
    }
}

/// `text` in ASCII lower case.
pub fn to_lower(text: &str) -> (out: String)
    ensures
        out@ == lower(text@),
{
    let chars = chars_of(text);
    let mut out = String::new();
    let mut i: usize = 0;
    while i < chars.len()
        invariant
            i <= chars.len(),
            chars@ == text@,
            out@ == lower(text@.take(i as int)),
        decreases chars.len() - i,
    {
        push_char(&mut out, lower_one(chars[i]));
        assert(lower(text@.take(i + 1)) =~= lower(text@.take(i as int)).push(
            lower_char(text@[i as int]),
        ));
        i += 1;
    }
    assert(text@.take(i as int) =~= text@);
    out
}

/// Comparison up to ASCII case.
pub fn eq_ci(a: &str, b: &str) -> (r: bool)
    ensures
        r == same_ci(a@, b@),
{
    let mut rest = b.chars();
    for c in it: a.chars()
        invariant
            it.seq() == a@,
            it.index() <= b@.len(),
            rest.remaining() == b@.skip(it.index() as int),
            forall|k: int|
                0 <= k < it.index() ==> lower_char(#[trigger] a@[k]) == lower_char(b@[k]),
    {
        let ghost k = it.index() as int;
        match rest.next() {
            Some(d) => {
                assert(b@.skip(k)[0] == b@[k]);
                assert(b@.skip(k).drop_first() =~= b@.skip(k + 1));
                if lower_one(c) != lower_one(d) {
                    assert(lower(a@)[k] != lower(b@)[k]);
                    return false;
                }
            },
            None => {
                assert(lower(a@).len() != lower(b@).len());
                return false;
            },
        }
    }
    if rest.next().is_some() {
        assert(lower(a@).len() != lower(b@).len());
        return false;
    }
    assert(lower(a@) =~= lower(b@));
    true
}

/// Whether `key` is `text` in ASCII lower case.
pub fn lowers_to(text: &str, key: &str) -> (r: bool)
    ensures
        r == (lower(text@) == key@),
{
    let mut rest = key.chars();
    for c in it: text.chars()
        invariant
            it.seq() == text@,
            it.index() <= key@.len(),
            rest.remaining() == key@.skip(it.index() as int),
            forall|k: int| 0 <= k < it.index() ==> lower_char(#[trigger] text@[k]) == key@[k],
    {
        let ghost k = it.index() as int;
        match rest.next() {
            Some(d) => {
                assert(key@.skip(k)[0] == key@[k]);
                assert(key@.skip(k).drop_first() =~= key@.skip(k + 1));
                if lower_one(c) != d {
                    assert(lower(text@)[k] != key@[k]);
                    return false;
                }
            },
            None => {
                assert(lower(text@).len() != key@.len());
                return false;
            },
        }
    }
    if rest.next().is_some() {
        assert(lower(text@).len() != key@.len());
        return false;
    }
    assert(lower(text@) =~= key@);
    true
}

/// The classes of scalars that the rules trim.
#[derive(Clone, Copy, PartialEq, Eq, Debug)]
pub enum CharClass {
    /// The double quote.
    Quote,
    /// Unicode white space.
    Space,
    /// ASCII digits.
    Digit,
}

/// The scalars with the Unicode property `White_Space`.
pub open spec fn is_space(c: char) -> bool {
    let u = c as u32;
    ||| 0x09 <= u <= 0x0D
    ||| u == 0x20
    ||| u == 0x85
    ||| u == 0xA0
    ||| u == 0x1680
    ||| 0x2000 <= u <= 0x200A
    ||| u == 0x2028
    ||| u == 0x2029
    ||| u == 0x202F
    ||| u == 0x205F
    ||| u == 0x3000
}

pub open spec fn is_digit(c: char) -> bool {
    '0' <= c && c <= '9'
}

/// Membership in a class.
pub open spec fn in_class(c: char, class: CharClass) -> bool {
    match class {
        CharClass::Quote => c == '"',
        CharClass::Space => is_space(c),
        CharClass::Digit => is_digit(c),
    }
}

/// Decides [`is_space`].
pub fn space(c: char) -> (r: bool)
    ensures
        r == is_space(c),
{
    let u: u32 = c as u32;
    (0x09 <= u && u <= 0x0D) || u == 0x20 || u == 0x85 || u == 0xA0 || u == 0x1680 || (0x2000 <= u
        && u <= 0x200A) || u == 0x2028 || u == 0x2029 || u == 0x202F || u == 0x205F || u == 0x3000
}

fn belongs(c: char, class: CharClass) -> (r: bool)
    ensures
        r == in_class(c, class),
{
    match class {
        CharClass::Quote => c == '"',
        CharClass::Space => space(c),
        CharClass::Digit => '0' <= c && c <= '9',
    }
}

/// `s` without its longest prefix of scalars of the class.
pub open spec fn trim_start(s: Seq<char>, class: CharClass) -> Seq<char>
    decreases s.len(),
{
    if s.len() > 0 && in_class(s[0], class) {
        trim_start(s.drop_first(), class)
    } else {
        s
    }
}

/// `s` without its longest suffix of scalars of the class.
pub open spec fn trim_end(s: Seq<char>, class: CharClass) -> Seq<char>
    decreases s.len(),
{
    if s.len() > 0 && in_class(s.last(), class) {
        trim_end(s.drop_last(), class)
    } else {
        s
    }
}

/// `s` without its longest prefix and suffix of scalars of the class.
pub open spec fn trim(s: Seq<char>, class: CharClass) -> Seq<char> {
    trim_end(trim_start(s, class), class)
}

/// The text without surrounding double quotes.
pub open spec fn unquoted(s: Seq<char>) -> Seq<char> {
    trim(s, CharClass::Quote)
}

/// Strips the class from the end of `text`.
pub fn trim_end_of(text: &str, class: CharClass) -> (out: &str)
    ensures
        out@ == trim_end(text@, class),
{
    let chars = chars_of(text);
    let mut end: usize = chars.len();
    proof {
        assert(text@.take(end as int) =~= text@);
    }
    while end > 0 && belongs(chars[end - 1], class)
        invariant
            end <= chars.len(),
            chars@ == text@,
            trim_end(text@.take(end as int), class) == trim_end(text@, class),
        decreases end,
    {
        proof {
            assert(text@.take(end as int).drop_last() =~= text@.take(end - 1));
        }
        end -= 1;
    }
    assert(text@.take(end as int) =~= text@.subrange(0, end as int));
    text.substring_char(0, end)
}

/// Strips the class from the start of `text`.
pub fn trim_start_of(text: &str, class: CharClass) -> (out: &str)
    ensures
        out@ == trim_start(text@, class),
{
    let chars = chars_of(text);
    let mut start: usize = 0;
    proof {
        assert(text@.skip(0) =~= text@);
    }
    while start < chars.len() && belongs(chars[start], class)
        invariant
            start <= chars.len(),
            chars@ == text@,
            trim_start(text@.skip(start as int), class) == trim_start(text@, class),
        decreases chars.len() - start,
    {
        proof {
            assert(text@.skip(start as int).drop_first() =~= text@.skip(start + 1));
        }
        start += 1;
    }
    assert(text@.skip(start as int) =~= text@.subrange(start as int, text@.len() as int));
    text.substring_char(start, chars.len())
}

/// Strips the class from both ends of `text`.
pub fn trim_both(text: &str, class: CharClass) -> (out: &str)
    ensures
        out@ == trim(text@, class),
{
    trim_end_of(trim_start_of(text, class), class)
}

/// The text without surrounding double quotes.
pub fn unquote(text: &str) -> (out: &str)
    ensures
        out@ == unquoted(text@),
{
    trim_both(text, CharClass::Quote)
}

/// The least position at or after `from` that holds `c`, or the length.
pub open spec fn find(s: Seq<char>, c: char, from: int) -> int
    decreases s.len() - from,
{
    if from < 0 || from >= s.len() || s[from] == c {
        if from <= s.len() { from } else { s.len() as int }
    } else {
        find(s, c, from + 1)
    }
}

/// The position after the last scalar that is `a` or `b`, or 0.
pub open spec fn after_last(s: Seq<char>, a: char, b: char) -> int
    decreases s.len(),
{
    if s.len() == 0 {
        0
    } else if s.last() == a || s.last() == b {
        s.len() as int
    } else {
        after_last(s.drop_last(), a, b)
    }
}

pub proof fn lemma_find_bounds(s: Seq<char>, c: char, from: int)
    requires
        0 <= from <= s.len(),
    ensures
        from <= find(s, c, from) <= s.len(),
        find(s, c, from) < s.len() ==> s[find(s, c, from)] == c,
        forall|k: int| from <= k < find(s, c, from) ==> s[k] != c,
    decreases s.len() - from,
{
    if from < s.len() && s[from] != c {
        lemma_find_bounds(s, c, from + 1);
    }
}

pub proof fn lemma_after_last_bounds(s: Seq<char>, a: char, b: char)
    ensures
        0 <= after_last(s, a, b) <= s.len(),
        after_last(s, a, b) > 0 ==> s[after_last(s, a, b) - 1] == a || s[after_last(s, a, b) - 1]
            == b,
        forall|k: int| after_last(s, a, b) <= k < s.len() ==> s[k] != a && s[k] != b,
    decreases s.len(),
{
    if s.len() > 0 && s.last() != a && s.last() != b {
        lemma_after_last_bounds(s.drop_last(), a, b);
        assert forall|k: int| after_last(s, a, b) <= k < s.len() implies s[k] != a && s[k] != b by {
            if k < s.len() - 1 {
                assert(s.drop_last()[k] == s[k]);
            }
        }
    }
}

/// Decides [`find`].
pub fn find_char(chars: &Vec<char>, c: char, from: usize) -> (r: usize)
    requires
        from <= chars.len(),
    ensures
        r == find(chars@, c, from as int),
        from <= r <= chars.len(),
{
    let mut i: usize = from;
    while i < chars.len() && chars[i] != c
        invariant
            from <= i <= chars.len(),
            find(chars@, c, from as int) == find(chars@, c, i as int),
        decreases chars.len() - i,
    {
        i += 1;
    }
    i
}

/// Decides [`after_last`].
pub fn after_last_of(chars: &Vec<char>, a: char, b: char) -> (r: usize)
    ensures
        r == after_last(chars@, a, b),
        r <= chars.len(),
{
    let mut i: usize = chars.len();
    assert(chars@.take(i as int) =~= chars@);
    while i > 0 && chars[i - 1] != a && chars[i - 1] != b
        invariant
            i <= chars.len(),
            after_last(chars@, a, b) == after_last(chars@.take(i as int), a, b),
        decreases i,
    {
        assert(chars@.take(i as int).drop_last() =~= chars@.take(i - 1));
        i -= 1;
    }
    i
}

/// The text before the first `c` and the text after it.
pub open spec fn split_once(s: Seq<char>, c: char) -> Option<(Seq<char>, Seq<char>)> {
    let at = find(s, c, 0);
    if at < s.len() {
        Some((s.subrange(0, at), s.subrange(at + 1, s.len() as int)))
    } else {
        None
    }
}

/// Decides [`split_once`].
pub fn split_at_first(text: &str, c: char) -> (r: Option<(&str, &str)>)
    ensures
        match r {
            Some((left, right)) => split_once(text@, c) == Some((left@, right@)),
            None => split_once(text@, c) is None,
        },
{
    let chars = chars_of(text);
    let at: usize = find_char(&chars, c, 0);
    if at < chars.len() {
        Some((text.substring_char(0, at), text.substring_char(at + 1, chars.len())))
    } else {
        None
    }
}

/// The part of `s` after the last scalar that is `a` or `b`; all of `s` when
/// there is none.
pub open spec fn last_part(s: Seq<char>, a: char, b: char) -> Seq<char> {
    s.subrange(after_last(s, a, b), s.len() as int)
}

/// Decides [`last_part`].
pub fn last_part_of(text: &str, a: char, b: char) -> (out: &str)
    ensures
        out@ == last_part(text@, a, b),
{
    let chars = chars_of(text);
    let at: usize = after_last_of(&chars, a, b);
    text.substring_char(at, chars.len())
}

/// The text before the last `c` and the text after it.
pub open spec fn rsplit_once(s: Seq<char>, c: char) -> Option<(Seq<char>, Seq<char>)> {
    let at = after_last(s, c, c);
    if at > 0 {
        Some((s.subrange(0, at - 1), s.subrange(at, s.len() as int)))
    } else {
        None
    }
}

/// Decides [`rsplit_once`].
pub fn split_at_last(text: &str, c: char) -> (r: Option<(&str, &str)>)
    ensures
        match r {
            Some((left, right)) => rsplit_once(text@, c) == Some((left@, right@)),
            None => rsplit_once(text@, c) is None,
        },
{
    let chars = chars_of(text);
    let at: usize = after_last_of(&chars, c, c);
    if at > 0 {
        Some((text.substring_char(0, at - 1), text.substring_char(at, chars.len())))
    } else {
        None
    }
}

/// `s` without `suffix` at its end.
pub open spec fn strip_suffix(s: Seq<char>, suffix: Seq<char>) -> Option<Seq<char>> {
    if suffix.is_suffix_of(s) {
        Some(s.take(s.len() - suffix.len()))
    } else {
        None
    }
}

/// `s` without `prefix` at its start.
pub open spec fn strip_prefix(s: Seq<char>, prefix: Seq<char>) -> Option<Seq<char>> {
    if prefix.is_prefix_of(s) {
        Some(s.skip(prefix.len() as int))
    } else {
        None
    }
}

/// Decides [`strip_suffix`].
pub fn without_suffix<'a>(text: &'a str, suffix: &str) -> (r: Option<&'a str>)
    ensures
        match r {
            Some(rest) => strip_suffix(text@, suffix@) == Some(rest@),
            None => strip_suffix(text@, suffix@) is None,
        },
{
    let n: usize = text.unicode_len();
    let m: usize = suffix.unicode_len();
    if m > n {
        return None;
    }
    let tail = text.substring_char(n - m, n);
    if same(tail, suffix) {
        proof {
            assert(text@.subrange(0, n - m) =~= text@.take(n - m));
        }
        Some(text.substring_char(0, n - m))
    } else {
        None
    }
}

/// Decides [`strip_prefix`].
pub fn without_prefix<'a>(text: &'a str, prefix: &str) -> (r: Option<&'a str>)
    ensures
        match r {
            Some(rest) => strip_prefix(text@, prefix@) == Some(rest@),
            None => strip_prefix(text@, prefix@) is None,
        },
{
    let n: usize = text.unicode_len();
    let m: usize = prefix.unicode_len();
    if m > n {
        return None;
    }
    let head = text.substring_char(0, m);
    if same(head, prefix) {
        proof {
            assert(text@.subrange(m as int, n as int) =~= text@.skip(m as int));
        }
        Some(text.substring_char(m, n))
    } else {
        None
    }
}

/// The decimal digits of `n`.
pub open spec fn decimal(n: nat) -> Seq<char>
    decreases n,
{
    if n < 10 {
        seq![digit_char(n)]
    } else {
        decimal(n / 10).push(digit_char(n % 10))
    }
}

pub open spec fn digit_char(d: nat) -> char {
    (('0' as nat) + d) as char
}

/// `n` in decimal.
pub fn number(n: usize) -> (out: String)
    ensures
        out@ == decimal(n as nat),
{
    number64(n as u64)
}

/// `n` in decimal.
pub fn number64(n: u64) -> (out: String)
    ensures
        out@ == decimal(n as nat),
    decreases n,
{
    let digit: u8 = (n % 10) as u8;
    let c: char = (48u8 + digit) as char;
    if n < 10 {
        let mut out = String::new();
        push_char(&mut out, c);
        assert(out@ =~= seq![digit_char(n as nat)]);
        out
    } else {
        let mut out = number64(n / 10);
        push_char(&mut out, c);
        out
    }
}

/// `a` followed by `b`.
pub fn join2(a: &str, b: &str) -> (out: String)
    ensures
        out@ == a@ + b@,
{
    let mut out = a.to_owned();
    out.append(b);
    out
}

/// `a`, `b` and `c`, one after another.
pub fn join3(a: &str, b: &str, c: &str) -> (out: String)
    ensures
        out@ == a@ + b@ + c@,
{
    let mut out = join2(a, b);
    out.append(c);
    out
}

/// Five texts, one after another.
pub fn join5(a: &str, b: &str, c: &str, d: &str, e: &str) -> (out: String)
    ensures
        out@ == a@ + b@ + c@ + d@ + e@,
{
    let mut out = join3(a, b, c);
    out.append(d);
    out.append(e);
    out
}

/// The length of a text in UTF-8 bytes.
pub open spec fn byte_len(s: Seq<char>) -> nat {
    vstd::utf8::encode_utf8(s).len()
}

/// The length of `text` in UTF-8 bytes.
pub fn bytes_in(text: &str) -> (n: usize)
    ensures
        n == byte_len(text@),
{
    text.as_bytes().len()
}

/// Byte lengths add up.
pub proof fn lemma_byte_len_add(a: Seq<char>, b: Seq<char>)
    ensures
        byte_len(a + b) == byte_len(a) + byte_len(b),
    decreases a.len(),
{
    if a.len() == 0 {
        assert(a + b =~= b);
    } else {
        assert((a + b).drop_first() =~= a.drop_first() + b);
        lemma_byte_len_add(a.drop_first(), b);
    }
}

/// Every scalar takes at least one byte.
pub proof fn lemma_byte_len_one(c: char)
    ensures
        byte_len(seq![c]) >= 1,
{
    assert(vstd::utf8::encode_utf8(seq![c]) == vstd::utf8::encode_scalar(c as u32)
        + vstd::utf8::encode_utf8(seq![c].drop_first()));
}

proof fn lemma_trim_start_bytes(s: Seq<char>, class: CharClass)
    ensures
        byte_len(trim_start(s, class)) + if s.len() > 0 && in_class(s[0], class) {
            1int
        } else {
            0int
        } <= byte_len(s),
    decreases s.len(),
{
    if s.len() > 0 && in_class(s[0], class) {
        lemma_trim_start_bytes(s.drop_first(), class);
        assert(s =~= seq![s[0]] + s.drop_first());
        lemma_byte_len_add(seq![s[0]], s.drop_first());
        lemma_byte_len_one(s[0]);
    }
}

proof fn lemma_trim_end_bytes(s: Seq<char>, class: CharClass)
    ensures
        byte_len(trim_end(s, class)) <= byte_len(s),
    decreases s.len(),
{
    if s.len() > 0 && in_class(s.last(), class) {
        lemma_trim_end_bytes(s.drop_last(), class);
        assert(s =~= s.drop_last() + seq![s.last()]);
        lemma_byte_len_add(s.drop_last(), seq![s.last()]);
    }
}

/// Trimming never adds bytes, and takes one where the first scalar goes.
pub proof fn lemma_trim_bytes(s: Seq<char>, class: CharClass)
    ensures
        byte_len(trim(s, class)) + if s.len() > 0 && in_class(s[0], class) {
            1int
        } else {
            0int
        } <= byte_len(s),
{
    lemma_trim_start_bytes(s, class);
    lemma_trim_end_bytes(trim_start(s, class), class);
}

/// The two parts of a split and the separator make up the text.
pub proof fn lemma_split_bytes(s: Seq<char>, c: char)
    ensures
        match split_once(s, c) {
            Some((left, right)) => byte_len(left) + 1 + byte_len(right) <= byte_len(s),
            None => true,
        },
{
    let at = find(s, c, 0);
    lemma_find_bounds(s, c, 0);
    if at < s.len() {
        let left = s.subrange(0, at);
        let right = s.subrange(at + 1, s.len() as int);
        assert(s =~= left + (seq![s[at]] + right));
        lemma_byte_len_add(left, seq![s[at]] + right);
        lemma_byte_len_add(seq![s[at]], right);
        lemma_byte_len_one(s[at]);
    }
}

} // verus!
