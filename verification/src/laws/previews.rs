//! The pictures of models: how they are written, kept and told apart.

use vstd::prelude::*;

use super::numbers::{law_decimals_are_digits, law_decimals_read_back};
use super::text::{around, lacks, law_texts_part_at_the_first};
use crate::numbers::digits_value;
use crate::preview::{
    base64_of, code_of, escaped, key_of, missing_note, preview_of, sextet, shown_names,
};
use crate::text::{decimal, is_digit, lower, lower_char};

verus! {

/// The number that a digit of the standard Base64 alphabet stands for.
pub open spec fn sextet_value(c: char) -> int {
    if 'A' <= c <= 'Z' {
        c as int - 'A' as int
    } else if 'a' <= c <= 'z' {
        26 + (c as int - 'a' as int)
    } else if '0' <= c <= '9' {
        52 + (c as int - '0' as int)
    } else if c == '+' {
        62
    } else {
        63
    }
}

/// The bytes behind a text in Base64.
pub open spec fn unbase64(s: Seq<char>) -> Seq<u8>
    decreases s.len(),
{
    if s.len() < 4 {
        Seq::empty()
    } else {
        let n = sextet_value(s[0]) * 262144 + sextet_value(s[1]) * 4096;
        if s[2] == '=' {
            seq![(n / 65536) as u8]
        } else if s[3] == '=' {
            let m = n + sextet_value(s[2]) * 64;
            seq![(m / 65536) as u8, (m / 256 % 256) as u8]
        } else {
            let m = n + sextet_value(s[2]) * 64 + sextet_value(s[3]);
            seq![(m / 65536) as u8, (m / 256 % 256) as u8, (m % 256) as u8] + unbase64(s.skip(4))
        }
    }
}

proof fn lemma_sextet(n: int)
    requires
        0 <= n < 64,
    ensures
        sextet_value(sextet(n)) == n,
        sextet(n) != '=',
{
}

proof fn lemma_number(a: int, b: int, c: int)
    requires
        0 <= a < 256,
        0 <= b < 256,
        0 <= c < 256,
    ensures
        (a * 65536 + b * 256 + c) / 65536 == a,
        (a * 65536 + b * 256 + c) / 256 == a * 256 + b,
        (a * 256 + b) % 256 == b,
        (a * 65536 + b * 256 + c) % 256 == c,
{
    vstd::arithmetic::div_mod::lemma_fundamental_div_mod_converse(
        a * 65536 + b * 256 + c,
        65536,
        a,
        b * 256 + c,
    );
    vstd::arithmetic::div_mod::lemma_fundamental_div_mod_converse(
        a * 65536 + b * 256 + c,
        256,
        a * 256 + b,
        c,
    );
    vstd::arithmetic::div_mod::lemma_fundamental_div_mod_converse(a * 256 + b, 256, a, b);
}

proof fn lemma_parts(a: int, b: int, c: int, p: int, q: int, r: int, t: int, u: int, v: int)
    requires
        a == 4 * p + q,
        b == 16 * r + t,
        c == 64 * u + v,
    ensures
        p * 262144 + (q * 16 + r) * 4096 + (t * 4 + u) * 64 + v == a * 65536 + b * 256 + c,
{
}

proof fn lemma_bits(a: int, b: int, c: int)
    requires
        0 <= a < 256,
        0 <= b < 256,
        0 <= c < 256,
    ensures
        ({
            let m = (a / 4) * 262144 + (a % 4 * 16 + b / 16) * 4096 + (b % 16 * 4 + c / 64) * 64
                + c % 64;
            &&& m / 65536 == a
            &&& m / 256 % 256 == b
            &&& m % 256 == c
        }),
        0 <= a / 4 < 64,
        0 <= a % 4 * 16 + b / 16 < 64,
        0 <= b % 16 * 4 + c / 64 < 64,
        0 <= c % 64 < 64,
{
    let m = (a / 4) * 262144 + (a % 4 * 16 + b / 16) * 4096 + (b % 16 * 4 + c / 64) * 64 + c % 64;
    lemma_parts(a, b, c, a / 4, a % 4, b / 16, b % 16, c / 64, c % 64);
    assert(m == a * 65536 + b * 256 + c);
    lemma_number(a, b, c);
}

proof fn lemma_one_byte(x: u8)
    ensures
        unbase64(
            seq![sextet(x as int / 4), sextet(x as int % 4 * 16), '=', '='],
        ) == seq![x],
{
    let a = x as int;
    lemma_bits(a, 0, 0);
    lemma_sextet(a / 4);
    lemma_sextet(a % 4 * 16);
}

proof fn lemma_two_bytes(x: u8, y: u8)
    ensures
        unbase64(
            seq![
                sextet(x as int / 4),
                sextet(x as int % 4 * 16 + y as int / 16),
                sextet(y as int % 16 * 4),
                '=',
            ],
        ) == seq![x, y],
{
    let a = x as int;
    let b = y as int;
    lemma_bits(a, b, 0);
    lemma_sextet(a / 4);
    lemma_sextet(a % 4 * 16 + b / 16);
    lemma_sextet(b % 16 * 4);
}

proof fn lemma_three_bytes(x: u8, y: u8, z: u8, rest: Seq<char>)
    ensures
        unbase64(
            seq![
                sextet(x as int / 4),
                sextet(x as int % 4 * 16 + y as int / 16),
                sextet(y as int % 16 * 4 + z as int / 64),
                sextet(z as int % 64),
            ] + rest,
        ) == seq![x, y, z] + unbase64(rest),
{
    let a = x as int;
    let b = y as int;
    let c = z as int;
    let four = seq![
        sextet(a / 4),
        sextet(a % 4 * 16 + b / 16),
        sextet(b % 16 * 4 + c / 64),
        sextet(c % 64),
    ];
    lemma_bits(a, b, c);
    lemma_sextet(a / 4);
    lemma_sextet(a % 4 * 16 + b / 16);
    lemma_sextet(b % 16 * 4 + c / 64);
    lemma_sextet(c % 64);
    let s = four + rest;
    assert(s[0] == four[0] && s[1] == four[1] && s[2] == four[2] && s[3] == four[3]);
    assert(s.skip(4) =~= rest);
}

/// The Base64 form of an image is read back as the image.
pub proof fn law_images_read_back(bytes: Seq<u8>)
    ensures
        unbase64(base64_of(bytes)) == bytes,
        base64_of(bytes).len() == (bytes.len() + 2) / 3 * 4,
    decreases bytes.len(),
{
    if bytes.len() == 0 {
        assert(unbase64(base64_of(bytes)) =~= bytes);
    } else if bytes.len() == 1 {
        lemma_one_byte(bytes[0]);
        assert(bytes =~= seq![bytes[0]]);
    } else if bytes.len() == 2 {
        lemma_two_bytes(bytes[0], bytes[1]);
        assert(bytes =~= seq![bytes[0], bytes[1]]);
    } else {
        let rest = bytes.skip(3);
        law_images_read_back(rest);
        lemma_three_bytes(bytes[0], bytes[1], bytes[2], base64_of(rest));
        assert(bytes =~= seq![bytes[0], bytes[1], bytes[2]] + rest);
    }
}

/// A preview holds its image, and ends with the note on what it misses.
pub proof fn law_previews_hold_their_image(
    model: Seq<char>,
    png: Seq<u8>,
    width: int,
    missing: Seq<Seq<char>>,
) -> (at: int)
    ensures
        0 <= at <= at + base64_of(png).len() <= preview_of(model, png, width, missing).len(),
        unbase64(
            preview_of(model, png, width, missing).subrange(
                at,
                at + base64_of(png).len() as int,
            ),
        ) == png,
{
    let label = escaped(model);
    let front = "!["@ + label + " model preview](data:image/png;base64,"@;
    let text = preview_of(model, png, width, missing);
    let at = front.len() as int;
    law_images_read_back(png);
    assert(text.subrange(at, at + base64_of(png).len() as int) =~= base64_of(png));
    at
}

/// The note names up to three textures, in their order, and counts the others.
pub proof fn law_missing_textures_are_named(names: Seq<Seq<char>>)
    ensures
        names.len() == 0 ==> missing_note(names).len() == 0,
        names.len() == 1 ==> missing_note(names) == "\n\nMissing texture"@ + ""@ + ": "@ + code_of(
            names[0],
        ),
        names.len() == 2 ==> missing_note(names) == "\n\nMissing texture"@ + "s"@ + ": "@ + code_of(
            names[0],
        ) + ", "@ + code_of(names[1]),
        names.len() == 3 ==> missing_note(names) == "\n\nMissing texture"@ + "s"@ + ": "@ + code_of(
            names[0],
        ) + ", "@ + code_of(names[1]) + ", "@ + code_of(names[2]),
        names.len() > 3 ==> missing_note(names) == missing_note(names.take(3)) + " and "@ + decimal(
            (names.len() - 3) as nat,
        ) + " more"@,
{
    reveal_with_fuel(shown_names, 5);
    if names.len() == 1 {
        assert(missing_note(names) =~= "\n\nMissing texture"@ + ""@ + ": "@ + code_of(names[0]));
    } else if names.len() == 2 {
        assert(missing_note(names) =~= "\n\nMissing texture"@ + "s"@ + ": "@ + code_of(names[0])
            + ", "@ + code_of(names[1]));
    } else if names.len() == 3 {
        assert(missing_note(names) =~= "\n\nMissing texture"@ + "s"@ + ": "@ + code_of(names[0])
            + ", "@ + code_of(names[1]) + ", "@ + code_of(names[2]));
    } else if names.len() > 3 {
        let few = names.take(3);
        assert(few[0] == names[0] && few[1] == names[1] && few[2] == names[2]);
        assert(shown_names(names, 0, 3) == shown_names(few, 0, 3));
        assert(missing_note(names) =~= missing_note(few) + " and "@ + decimal(
            (names.len() - 3) as nat,
        ) + " more"@);
    }
}

proof fn lemma_key(model: Seq<char>, source: Seq<char>, width: int, zoom: int)
    requires
        0 <= width,
        0 <= zoom,
        lacks(model, '\0'),
        lacks(source, '\0'),
    ensures
        ({
            let w = decimal(width as nat);
            let z = decimal(zoom as nat);
            &&& key_of(model, source, width, zoom) == around(
                lower(model),
                '\0',
                around(source, '\0', around(w, '\0', z)),
            )
            &&& lacks(lower(model), '\0')
            &&& lacks(w, '\0')
        }),
{
    reveal_strlit("\0");
    let w = decimal(width as nat);
    let z = decimal(zoom as nat);
    assert(key_of(model, source, width, zoom) =~= around(
        lower(model),
        '\0',
        around(source, '\0', around(w, '\0', z)),
    ));
    assert forall|i: int| 0 <= i < lower(model).len() implies #[trigger] lower(model)[i] != '\0' by {
        assert(lower(model)[i] == lower_char(model[i]));
        assert(model[i] != '\0');
    }
    law_decimals_are_digits(width as nat);
    assert forall|i: int| 0 <= i < w.len() implies #[trigger] w[i] != '\0' by {
        assert(is_digit(w[i]));
    }
}

/// Previews are kept under one key only where model, file, width and zoom are the
/// same; the case of the model's name makes no difference.
pub proof fn law_previews_are_kept_apart(
    model: Seq<char>,
    source: Seq<char>,
    width: int,
    zoom: int,
    other: Seq<char>,
    file: Seq<char>,
    w: int,
    z: int,
)
    requires
        0 <= width,
        0 <= zoom,
        0 <= w,
        0 <= z,
        lacks(model, '\0'),
        lacks(source, '\0'),
        lacks(other, '\0'),
        lacks(file, '\0'),
    ensures
        key_of(model, source, width, zoom) == key_of(other, file, w, z) <==> lower(model) == lower(
            other,
        ) && source == file && width == w && zoom == z,
{
    if key_of(model, source, width, zoom) == key_of(other, file, w, z) {
        lemma_key(model, source, width, zoom);
        lemma_key(other, file, w, z);
        let (d1, e1) = (decimal(width as nat), decimal(zoom as nat));
        let (d2, e2) = (decimal(w as nat), decimal(z as nat));
        law_texts_part_at_the_first(
            lower(model),
            '\0',
            around(source, '\0', around(d1, '\0', e1)),
        );
        law_texts_part_at_the_first(lower(other), '\0', around(file, '\0', around(d2, '\0', e2)));
        law_texts_part_at_the_first(source, '\0', around(d1, '\0', e1));
        law_texts_part_at_the_first(file, '\0', around(d2, '\0', e2));
        law_texts_part_at_the_first(d1, '\0', e1);
        law_texts_part_at_the_first(d2, '\0', e2);
        law_decimals_read_back(width as nat);
        law_decimals_read_back(w as nat);
        law_decimals_read_back(zoom as nat);
        law_decimals_read_back(z as nat);
        assert(digits_value(d1) == digits_value(d2));
        assert(digits_value(e1) == digits_value(e2));
    }
}

} // verus!
